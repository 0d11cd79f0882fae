//! What the screen shows of a translating session: the current line with its
//! commentary unfolded and the cursor marked with terminal escape codes.
//!
//! Cursor columns count bytes of the UTF-8 encoding, as the program's cursor
//! does, so everything here is stated over the bytes of the strings.
use crate::converter::join_with;
use crate::session::{CommentaryPosition, TranslationState};
use crate::session::position_or_text_len;
use crate::structure::{byte_len, clamp_position, Commentary, CommentaryModel, Line, LineModel, Text};
use std::collections::BTreeMap;
use vstd::std_specs::btree::{increasing_seq, spec_btree_map_iter};
use vstd::std_specs::cmp::OrdSpec;
use vstd::std_specs::iter::IteratorSpec;
use vstd::prelude::*;
use vstd::utf8::*;

verus! {

/// The UTF-8 bytes of a character sequence.
pub open spec fn bytes(s: Seq<char>) -> Seq<u8> {
    encode_utf8(s)
}

/// The escape code that starts the cursor's highlight.
pub open spec fn cursor_on() -> Seq<u8> {
    bytes("\x1b[47;5m"@)
}

/// The escape code that ends the cursor's highlight.
pub open spec fn cursor_off() -> Seq<u8> {
    bytes("\x1b[0m"@)
}

/// A highlighted blank, the cursor shown after the end of a text.
pub open spec fn cursor_blank() -> Seq<u8> {
    bytes("\x1b[47;5m \x1b[0m"@)
}

pub proof fn lemma_bytes_concat(a: Seq<char>, b: Seq<char>)
    ensures
        bytes(a + b) == bytes(a) + bytes(b),
    decreases a.len(),
{
    if a.len() == 0 {
        assert(a + b =~= b);
        assert(bytes(a) + bytes(b) =~= bytes(b));
    } else {
        lemma_bytes_concat(a.drop_first(), b);
        assert((a + b).drop_first() =~= a.drop_first() + b);
        assert(bytes(a + b) =~= bytes(a) + bytes(b));
    }
}

pub proof fn lemma_bytes_injective(a: Seq<char>, b: Seq<char>)
    requires
        bytes(a) == bytes(b),
    ensures
        a == b,
{
    encode_utf8_decode_utf8(a);
    encode_utf8_decode_utf8(b);
}

/// The exact byte length of a string slice.
pub fn byte_count(s: &str) -> (r: usize)
    ensures
        r == bytes(s@).len(),
{
    s.as_bytes().len()
}

/// The column where the cursor is drawn in a text of `b.len()` bytes.
pub open spec fn cursor_column(b: Seq<u8>, column: usize, edit: bool) -> int {
    let last = if b.len() == 0 {
        0
    } else {
        b.len() - 1
    };
    let c = if last < column {
        last
    } else {
        column as int
    };
    if edit {
        c + 1
    } else {
        c
    }
}

/// Whether the cursor goes after the end of the text (as a highlighted blank).
pub open spec fn cursor_at_end(b: Seq<u8>, column: usize, edit: bool) -> bool {
    b.len() == 0 || (edit && cursor_column(b, column, edit) == b.len())
}

/// The bytes of a text with the cursor marked at `column` (moved back inside
/// the text; one further in editing mode, where the cursor stands after the
/// character being edited).
pub open spec fn cursor_bytes(b: Seq<u8>, column: usize, edit: bool) -> Seq<u8> {
    let c = cursor_column(b, column, edit);
    if cursor_at_end(b, column, edit) {
        b + cursor_blank()
    } else {
        b.take(c) + cursor_on() + b.subrange(c, c + 1) + cursor_off() + b.skip(c + 1)
    }
}

/// The cursor can be marked without a panic: the highlighted byte is a whole
/// character.
pub open spec fn cursor_ok(b: Seq<u8>, column: usize, edit: bool) -> bool {
    let c = cursor_column(b, column, edit);
    !cursor_at_end(b, column, edit) ==> is_char_boundary(b, c) && is_char_boundary(b, c + 1)
}

proof fn lemma_boundary_prefix(b1: Seq<u8>, b2: Seq<u8>, i: int)
    requires
        valid_utf8(b1),
        valid_utf8(b2),
        0 <= i < b1.len(),
        i < b2.len(),
        b1[i] == b2[i],
    ensures
        is_char_boundary(b1, i) == is_char_boundary(b2, i),
{
    is_char_boundary_iff_not_is_continuation_byte(b1, i);
    is_char_boundary_iff_not_is_continuation_byte(b2, i);
}

/// The escape codes as bytes: `ESC [ 4 7 ; 5 m` and `ESC [ 0 m`, and the
/// highlighted blank between them.
pub proof fn lemma_cursor_codes()
    ensures
        cursor_on() == seq![27u8, 91u8, 52u8, 55u8, 59u8, 53u8, 109u8],
        cursor_off() == seq![27u8, 91u8, 48u8, 109u8],
        cursor_blank() == cursor_on() + seq![32u8] + cursor_off(),
{
    reveal_strlit("\x1b[47;5m");
    reveal_strlit("\x1b[0m");
    reveal_strlit("\x1b[47;5m \x1b[0m");
    let on = "\x1b[47;5m"@;
    let off = "\x1b[0m"@;
    let blank = "\x1b[47;5m \x1b[0m"@;
    assert(is_ascii_chars(on));
    assert(is_ascii_chars(off));
    assert(is_ascii_chars(blank));
    is_ascii_chars_encode_utf8(on);
    is_ascii_chars_encode_utf8(off);
    is_ascii_chars_encode_utf8(blank);
    assert(bytes(on) =~= seq![27u8, 91u8, 52u8, 55u8, 59u8, 53u8, 109u8]);
    assert(bytes(off) =~= seq![27u8, 91u8, 48u8, 109u8]);
    assert(bytes(blank) =~= seq![27u8, 91u8, 52u8, 55u8, 59u8, 53u8, 109u8, 32u8, 27u8, 91u8, 48u8, 109u8]);
    assert(bytes(blank) =~= bytes(on) + seq![32u8] + bytes(off));
}

/// Where the highlight starts in the marked bytes of `b`: at the end of the
/// text when the cursor is drawn there, else at the cursor's column.
pub open spec fn cursor_start(b: Seq<u8>, column: usize, edit: bool) -> int {
    if cursor_at_end(b, column, edit) {
        b.len() as int
    } else {
        cursor_column(b, column, edit)
    }
}

/// In a text without escape bytes, marking the cursor puts the highlight
/// code and the reset code in once each, with exactly one byte between
/// them; taking both out again gives the text back, with a blank added when
/// the cursor was drawn after the end of the text.
pub proof fn lemma_cursor_marked_once(b: Seq<u8>, column: usize, edit: bool)
    requires
        forall|j: int| 0 <= j < b.len() ==> b[j] != 27u8,
    ensures
        ({
            let r = cursor_bytes(b, column, edit);
            let i = cursor_start(b, column, edit);
            &&& 0 <= i <= b.len()
            &&& b.len() == 0 ==> i == 0
            &&& b.len() > 0 && !edit ==> i == (if column < b.len() { column as int } else { b.len() - 1 })
            &&& b.len() > 0 && edit ==> i == (if column + 1 < b.len() { column + 1 } else { b.len() as int })
            &&& r.len() == b.len() + (if cursor_at_end(b, column, edit) { 12int } else { 11int })
            &&& r.subrange(i, i + 7) == cursor_on()
            &&& r.subrange(i + 8, i + 12) == cursor_off()
            &&& forall|j: int| 0 <= j < r.len() ==> (r[j] == 27u8 <==> (j == i || j == i + 8))
            &&& r.take(i) + r.subrange(i + 7, i + 8) + r.skip(i + 12) == (if cursor_at_end(
                b,
                column,
                edit,
            ) {
                b + seq![32u8]
            } else {
                b
            })
        }),
{
    lemma_cursor_codes();
    let r = cursor_bytes(b, column, edit);
    let i = cursor_start(b, column, edit);
    let on = cursor_on();
    let off = cursor_off();
    if cursor_at_end(b, column, edit) {
        assert(r =~= b + on + seq![32u8] + off);
        assert(r.subrange(i, i + 7) =~= on);
        assert(r.subrange(i + 8, i + 12) =~= off);
        assert(r.take(i) + r.subrange(i + 7, i + 8) + r.skip(i + 12) =~= b + seq![32u8]);
    } else {
        assert(r =~= b.take(i) + on + b.subrange(i, i + 1) + off + b.skip(i + 1));
        assert(r.subrange(i, i + 7) =~= on);
        assert(r.subrange(i + 8, i + 12) =~= off);
        assert(r.take(i) + r.subrange(i + 7, i + 8) + r.skip(i + 12) =~= b);
    }
}

/// A character sequence without the escape character.
pub open spec fn chars_escape_free(s: Seq<char>) -> bool {
    forall|j: int| 0 <= j < s.len() ==> s[j] != '\x1b'
}

/// A byte sequence without the escape byte.
pub open spec fn escape_free(b: Seq<u8>) -> bool {
    forall|j: int| 0 <= j < b.len() ==> b[j] != 27u8
}

/// The cursor is marked once in `b`, from `i` on: the highlight code at
/// `i`, the reset code at `i + 8`, and no other escape byte.
pub open spec fn marked_once_at(b: Seq<u8>, i: int) -> bool {
    &&& 0 <= i
    &&& i + 12 <= b.len()
    &&& b.subrange(i, i + 7) == cursor_on()
    &&& b.subrange(i + 8, i + 12) == cursor_off()
    &&& forall|j: int| 0 <= j < b.len() ==> (b[j] == 27u8 <==> (j == i || j == i + 8))
}

proof fn lemma_scalar_escape_free(v: u32)
    requires
        v != 27,
    ensures
        escape_free(encode_scalar(v)),
{
    assert(v <= 0x7f && v != 27 ==> (v & 0x7F) as u8 != 27u8) by (bit_vector);
    assert(leading_byte_width_2(v) != 27u8) by (bit_vector);
    assert(leading_byte_width_3(v) != 27u8) by (bit_vector);
    assert(leading_byte_width_4(v) != 27u8) by (bit_vector);
    assert(last_continuation_byte(v) != 27u8) by (bit_vector);
    assert(second_last_continuation_byte(v) != 27u8) by (bit_vector);
    assert(third_last_continuation_byte(v) != 27u8) by (bit_vector);
}

/// The bytes of a text without the escape character hold no escape byte.
pub proof fn lemma_bytes_escape_free(s: Seq<char>)
    requires
        chars_escape_free(s),
    ensures
        escape_free(bytes(s)),
    decreases s.len(),
{
    if s.len() > 0 {
        assert(s[0] != '\x1b');
        char_u32_cast(s[0], s[0] as u32);
        char_u32_cast('\x1b', 27u32);
        assert(s[0] as u32 != 27);
        lemma_scalar_escape_free(s[0] as u32);
        assert(chars_escape_free(s.drop_first()));
        lemma_bytes_escape_free(s.drop_first());
        assert(bytes(s) == encode_scalar(s[0] as u32) + bytes(s.drop_first()));
    }
}

proof fn lemma_marked_once_concat(a: Seq<u8>, b: Seq<u8>, c: Seq<u8>, i: int)
    requires
        escape_free(a),
        marked_once_at(b, i),
        escape_free(c),
    ensures
        marked_once_at(a + b + c, a.len() + i),
{
    let r = a + b + c;
    assert(r.subrange(a.len() + i, a.len() + i + 7) =~= b.subrange(i, i + 7));
    assert(r.subrange(a.len() + i + 8, a.len() + i + 12) =~= b.subrange(i + 8, i + 12));
    assert forall|j: int| 0 <= j < r.len() implies (r[j] == 27u8 <==> (j == a.len() + i || j
        == a.len() + i + 8)) by {
        if j < a.len() {
        } else if j < a.len() + b.len() {
            assert(r[j] == b[j - a.len()]);
        } else {
            assert(r[j] == c[j - a.len() - b.len()]);
        }
    }
}

proof fn lemma_escape_free_concat(a: Seq<u8>, b: Seq<u8>)
    requires
        escape_free(a),
        escape_free(b),
    ensures
        escape_free(a + b),
{
    assert forall|j: int| 0 <= j < (a + b).len() implies (a + b)[j] != 27u8 by {
        if j >= a.len() {
            assert((a + b)[j] == b[j - a.len()]);
        }
    }
}

proof fn lemma_join_escape_free(parts: Seq<Seq<u8>>, sep: Seq<u8>)
    requires
        forall|i: int| 0 <= i < parts.len() ==> escape_free(#[trigger] parts[i]),
        escape_free(sep),
    ensures
        escape_free(join_with(parts, sep)),
    decreases parts.len(),
{
    if parts.len() == 1 {
        assert(escape_free(parts[0]));
    } else if parts.len() > 1 {
        lemma_join_escape_free(parts.drop_last(), sep);
        assert(escape_free(parts[parts.len() - 1]));
        lemma_escape_free_concat(join_with(parts.drop_last(), sep), sep);
        lemma_escape_free_concat(join_with(parts.drop_last(), sep) + sep, parts.last());
    }
}

proof fn lemma_newline_escape_free()
    ensures
        escape_free(newline()),
{
    reveal_strlit("\n");
    assert(chars_escape_free("\n"@));
    lemma_bytes_escape_free("\n"@);
}

/// A commentary whose translation and description lines hold no escape
/// character.
pub open spec fn commentary_escape_free(c: CommentaryModel) -> bool {
    &&& c.translation matches Some(t) ==> chars_escape_free(t)
    &&& c.description matches Some(d) ==> forall|i: int|
        0 <= i < d.len() ==> chars_escape_free(#[trigger] d[i])
}

/// A line whose text and commentary hold no escape character.
pub open spec fn line_escape_free(line: LineModel) -> bool {
    &&& chars_escape_free(line.text)
    &&& forall|k: usize| #[trigger]
        line.commentary.contains_key(k) ==> commentary_escape_free(line.commentary[k])
}

proof fn lemma_commentary_bytes_escape_free(c: CommentaryModel)
    requires
        commentary_escape_free(c),
    ensures
        escape_free(translation_bytes(c.translation)),
        escape_free(description_bytes(c.description)),
{
    if let Some(t) = c.translation {
        lemma_bytes_escape_free(t);
    }
    if let Some(d) = c.description {
        lemma_newline_escape_free();
        let sb = strings_bytes(d);
        assert forall|i: int| 0 <= i < sb.len() implies escape_free(#[trigger] sb[i]) by {
            assert(chars_escape_free(d[i]));
            lemma_bytes_escape_free(d[i]);
        }
        lemma_join_escape_free(sb, newline());
        lemma_escape_free_concat(newline(), join_with(sb, newline()));
        lemma_escape_free_concat(newline() + join_with(sb, newline()), newline());
    }
}

/// Marks the cursor in `plain_text` with escape codes.
#[verifier::spinoff_prover]
#[verifier::rlimit(40)]
pub fn cursor_ify(plain_text: &mut String, column: usize, edit: bool, ltr: bool)
    requires
        cursor_ok(bytes(old(plain_text)@), column, edit),
    ensures
        bytes(final(plain_text)@) == cursor_bytes(bytes(old(plain_text)@), column, edit),
{
    let ghost b = bytes(plain_text@);
    let len = byte_count(plain_text.as_str());
    let mut col = if len == 0 {
        0
    } else {
        len - 1
    };
    if column < col {
        col = column;
    }
    if edit {
        col = col + 1;
    }
    if len == 0 || (edit && col == len) {
        proof {
            lemma_bytes_concat(plain_text@, "\x1b[47;5m \x1b[0m"@);
        }
        plain_text.append("\x1b[47;5m \x1b[0m");
    } else {
        // the end marker goes in first, behind the highlighted byte
        let (a, rest) = plain_text.as_str().split_at(col + 1);
        let mut with_end = a.to_owned();
        with_end.append("\x1b[0m");
        with_end.append(rest);
        proof {
            lemma_bytes_concat(a@, "\x1b[0m"@);
            lemma_bytes_concat(a@ + "\x1b[0m"@, rest@);
            let b2 = bytes(with_end@);
            assert(b2 =~= b.take(col + 1) + cursor_off() + b.skip(col + 1));
            assert(b2[col as int] == b[col as int]);
            encode_utf8_valid_utf8(plain_text@);
            encode_utf8_valid_utf8(with_end@);
            lemma_boundary_prefix(b, b2, col as int);
        }
        let (a2, rest2) = with_end.as_str().split_at(col);
        let mut marked = a2.to_owned();
        marked.append("\x1b[47;5m");
        marked.append(rest2);
        proof {
            lemma_bytes_concat(a2@, "\x1b[47;5m"@);
            lemma_bytes_concat(a2@ + "\x1b[47;5m"@, rest2@);
            assert(bytes(marked@) =~= cursor_bytes(b, column, edit));
        }
        *plain_text = marked;
    }
}


pub open spec fn newline() -> Seq<u8> {
    bytes("\n"@)
}

pub open spec fn strings_bytes(v: Seq<Seq<char>>) -> Seq<Seq<u8>> {
    v.map_values(|s: Seq<char>| bytes(s))
}

pub proof fn lemma_bytes_empty(s: Seq<char>)
    ensures
        bytes(s).len() == 0 <==> s.len() == 0,
{
    if s.len() > 0 {
        assert(bytes(s) == encode_scalar(s[0] as u32) + bytes(s.drop_first()));
    }
}

/// `parts` joined with `sep`.
pub fn join_strings(parts: &Vec<String>, sep: &str) -> (r: String)
    ensures
        bytes(r@) == join_with(strings_bytes(parts@.map_values(|p: String| p@)), bytes(sep@)),
{
    let ghost all = strings_bytes(parts@.map_values(|p: String| p@));
    let mut r = String::new();
    for i in 0..parts.len()
        invariant
            all == strings_bytes(parts@.map_values(|p: String| p@)),
            bytes(r@) == join_with(all.take(i as int), bytes(sep@)),
    {
        proof {
            assert(all.take(i + 1).drop_last() =~= all.take(i as int));
        }
        if i == 0 {
            r = parts[0].clone();
            assert(all.take(1) =~= seq![all[0]]);
        } else {
            proof {
                lemma_bytes_concat(r@, sep@);
                lemma_bytes_concat(r@ + sep@, parts[i as int]@);
            }
            r.append(sep);
            r.append(parts[i].as_str());
        }
    }
    assert(all.take(parts.len() as int) =~= all);
    r
}

/// The bytes of an optional translation.
pub open spec fn translation_bytes(t: Option<Seq<char>>) -> Seq<u8> {
    match t {
        Some(t) => bytes(t),
        None => Seq::empty(),
    }
}

/// A description as it is shown: its lines joined, between two line breaks
/// (nothing when there is no description).
pub open spec fn description_bytes(d: Option<Seq<Seq<char>>>) -> Seq<u8> {
    match d {
        Some(d) => newline() + join_with(strings_bytes(d), newline()) + newline(),
        None => Seq::empty(),
    }
}

/// The lines of a description with the cursor marked in line `line`.
pub open spec fn marked_lines(d: Seq<Seq<char>>, line: usize, column: usize, edit: bool) -> Seq<
    Seq<u8>,
> {
    Seq::new(
        d.len(),
        |i: int|
            if i == line {
                cursor_bytes(bytes(d[i]), column, edit)
            } else {
                bytes(d[i])
            },
    )
}

/// A description with the cursor marked in line `line`.
pub open spec fn marked_description_bytes(
    d: Option<Seq<Seq<char>>>,
    line: usize,
    column: usize,
    edit: bool,
) -> Seq<u8> {
    match d {
        Some(d) => newline() + join_with(marked_lines(d, line, column, edit), newline())
            + newline(),
        None => Seq::empty(),
    }
}

fn clone_translation(t: &Option<String>) -> (r: Option<String>)
    ensures
        crate::structure::opt_string_view(r) == crate::structure::opt_string_view(*t),
{
    match t {
        Some(t) => Some(t.clone()),
        None => None,
    }
}

/// A description as it is shown.
fn description_text(d: &Option<Vec<String>>) -> (r: String)
    ensures
        bytes(r@) == description_bytes(
            match *d {
                Some(v) => Some(crate::structure::strings_view(v)),
                None => None,
            },
        ),
{
    match d {
        Some(v) => {
            let j = join_strings(v, "\n");
            let mut r = String::from_str("\n");
            proof {
                lemma_bytes_concat("\n"@, j@);
                lemma_bytes_concat("\n"@ + j@, "\n"@);
                assert(v@.map_values(|p: String| p@) =~= crate::structure::strings_view(*v));
            }
            r.append(j.as_str());
            r.append("\n");
            r
        },
        None => {
            let r = String::new();
            assert(bytes(r@) =~= Seq::<u8>::empty());
            r
        },
    }
}

/// The commentary with the cursor in its translation: the marked translation
/// and the description.
pub fn cursor_ify_translation(
    translation_state: &TranslationState,
    commentary: &Commentary,
    column: usize,
) -> (r: (Option<String>, String))
    requires
        commentary@.translation matches Some(t) ==> cursor_ok(
            bytes(t),
            column,
            *translation_state == TranslationState::Editing,
        ),
    ensures
        match commentary@.translation {
            Some(t) => r.0 matches Some(m) && bytes(m@) == cursor_bytes(
                bytes(t),
                column,
                *translation_state == TranslationState::Editing,
            ),
            None => r.0 is None,
        },
        bytes(r.1@) == description_bytes(commentary@.description),
{
    let edit = *translation_state == TranslationState::Editing;
    let translation = match &commentary.sentence_translation {
        Some(t) => {
            let mut m = t.clone();
            cursor_ify(&mut m, column, edit, true);
            Some(m)
        },
        None => None,
    };
    (translation, description_text(&commentary.description_paragraph))
}

/// The commentary with the cursor in line `line` of its description: the
/// translation and the marked description.
pub fn cursor_ify_description(
    translation_state: &TranslationState,
    commentary: &Commentary,
    line: usize,
    column: usize,
) -> (r: (Option<String>, String))
    requires
        commentary@.description matches Some(d) ==> (line < d.len() ==> cursor_ok(
            bytes(d[line as int]),
            column,
            *translation_state == TranslationState::Editing,
        )),
    ensures
        crate::structure::opt_string_view(r.0) == commentary@.translation,
        bytes(r.1@) == marked_description_bytes(
            commentary@.description,
            line,
            column,
            *translation_state == TranslationState::Editing,
        ),
{
    let edit = *translation_state == TranslationState::Editing;
    let description = match &commentary.description_paragraph {
        Some(v) => {
            let ghost d = crate::structure::strings_view(*v);
            let mut lines: Vec<String> = Vec::new();
            for i in 0..v.len()
                invariant
                    d == crate::structure::strings_view(*v),
                    line < d.len() ==> cursor_ok(bytes(d[line as int]), column, edit),
                    lines@.len() == i,
                    forall|k: int|
                        0 <= k < i ==> bytes(#[trigger] lines@[k]@) == marked_lines(
                            d,
                            line,
                            column,
                            edit,
                        )[k],
            {
                let mut s = v[i].clone();
                if i == line {
                    cursor_ify(&mut s, column, edit, true);
                }
                lines.push(s);
            }
            let j = join_strings(&lines, "\n");
            proof {
                assert(strings_bytes(lines@.map_values(|p: String| p@)) =~= marked_lines(
                    d,
                    line,
                    column,
                    edit,
                ));
                lemma_bytes_concat("\n"@, j@);
                lemma_bytes_concat("\n"@ + j@, "\n"@);
            }
            let mut r = String::from_str("\n");
            r.append(j.as_str());
            r.append("\n");
            r
        },
        None => {
            let r = String::new();
            assert(bytes(r@) =~= Seq::<u8>::empty());
            r
        },
    };
    (clone_translation(&commentary.sentence_translation), description)
}


pub open spec fn increasing(s: Seq<usize>) -> bool {
    forall|i: int, j: int| 0 <= i < j < s.len() ==> s[i] < s[j]
}

/// The elements of a set of keys in increasing order.
pub open spec fn sorted_keys(keys: Set<usize>) -> Seq<usize> {
    choose|s: Seq<usize>| increasing(s) && s.to_set() == keys
}

/// A finite non-empty set of keys has a greatest element.
proof fn lemma_set_max(s: Set<usize>) -> (m: usize)
    requires
        s.finite(),
        s.len() > 0,
    ensures
        s.contains(m),
        forall|y: usize| s.contains(y) ==> y <= m,
    decreases s.len(),
{
    let x = s.choose();
    let r = s.remove(x);
    if r.len() == 0 {
        vstd::set_lib::lemma_set_empty_equivalency_len(r);
        assert forall|y: usize| s.contains(y) implies y <= x by {
            if y != x {
                assert(r.contains(y));
            }
        }
        x
    } else {
        let m2 = lemma_set_max(r);
        if x < m2 {
            m2
        } else {
            x
        }
    }
}

/// Every finite set of keys has an increasing sequence of its elements.
proof fn lemma_increasing_exists(s: Set<usize>)
    requires
        s.finite(),
    ensures
        exists|q: Seq<usize>| increasing(q) && q.to_set() == s,
    decreases s.len(),
{
    if s.len() == 0 {
        vstd::set_lib::lemma_set_empty_equivalency_len(s);
        let q = Seq::<usize>::empty();
        assert(q.to_set() =~= s);
        assert(increasing(q));
    } else {
        let m = lemma_set_max(s);
        let r = s.remove(m);
        lemma_increasing_exists(r);
        let q = choose|q: Seq<usize>| increasing(q) && q.to_set() == r;
        let q2 = q.push(m);
        assert forall|i: int, j: int| 0 <= i < j < q2.len() implies q2[i] < q2[j] by {
            if j == q2.len() - 1 {
                assert(q.to_set().contains(q[i]));
                assert(r.contains(q2[i]));
            } else {
                assert(q[i] < q[j]);
            }
        }
        assert(q2.to_set() =~= s) by {
            assert forall|y: usize| q2.to_set().contains(y) implies s.contains(y) by {
                let i = choose|i: int| 0 <= i < q2.len() && q2[i] == y;
                if i < q.len() {
                    assert(q.to_set().contains(q[i]));
                }
            }
            assert forall|y: usize| s.contains(y) implies q2.to_set().contains(y) by {
                if y == m {
                    assert(q2[q.len() as int] == y);
                } else {
                    assert(r.contains(y));
                    assert(q.to_set().contains(y));
                    let i = choose|i: int| 0 <= i < q.len() && q[i] == y;
                    assert(q2[i] == y);
                }
            }
        }
        assert(increasing(q2));
    }
}

/// The keys of a finite set, in order: increasing, and exactly the set.
pub proof fn lemma_sorted_keys(keys: Set<usize>)
    requires
        keys.finite(),
    ensures
        increasing(sorted_keys(keys)),
        sorted_keys(keys).to_set() == keys,
{
    lemma_increasing_exists(keys);
}

/// There is one increasing sequence of a given set of elements.
pub proof fn lemma_increasing_unique(a: Seq<usize>, b: Seq<usize>)
    requires
        increasing(a),
        increasing(b),
        a.to_set() == b.to_set(),
    ensures
        a == b,
    decreases a.len(),
{
    if a.len() == 0 {
        if b.len() > 0 {
            assert(b.to_set().contains(b[0]));
        }
    } else if b.len() == 0 {
        assert(a.to_set().contains(a[0]));
    } else {
        assert(a.to_set().contains(a[0]));
        assert(b.to_set().contains(b[0]));
        assert(a[0] == b[0]);
        let a2 = a.drop_first();
        let b2 = b.drop_first();
        assert(a2.to_set() =~= a.to_set().remove(a[0])) by {
            assert forall|x: usize| a2.to_set().contains(x) implies a.to_set().remove(
                a[0],
            ).contains(x) by {
                let i = choose|i: int| 0 <= i < a2.len() && a2[i] == x;
                assert(a[i + 1] == x);
            }
            assert forall|x: usize| a.to_set().remove(a[0]).contains(x) implies a2.to_set().contains(
                x,
            ) by {
                let i = choose|i: int| 0 <= i < a.len() && a[i] == x;
                assert(a2[i - 1] == x);
            }
        }
        assert(b2.to_set() =~= b.to_set().remove(b[0])) by {
            assert forall|x: usize| b2.to_set().contains(x) implies b.to_set().remove(
                b[0],
            ).contains(x) by {
                let i = choose|i: int| 0 <= i < b2.len() && b2[i] == x;
                assert(b[i + 1] == x);
            }
            assert forall|x: usize| b.to_set().remove(b[0]).contains(x) implies b2.to_set().contains(
                x,
            ) by {
                let i = choose|i: int| 0 <= i < b.len() && b[i] == x;
                assert(b2[i - 1] == x);
            }
        }
        lemma_increasing_unique(a2, b2);
        assert forall|i: int| 0 <= i < a.len() implies a[i] == b[i] by {
            if i == 0 {
                assert(a[0] == b[0]);
            } else {
                assert(a2[i - 1] == b2[i - 1]);
            }
        }
        assert(a =~= b);
    }
}

proof fn lemma_increasing_keys(keys: Seq<usize>)
    requires
        increasing_seq(keys),
    ensures
        increasing(keys),
{
    assert forall|i: int, j: int| 0 <= i < j < keys.len() implies keys[i] < keys[j] by {
        assert(keys[i].cmp_spec(&keys[j]) is Less);
    }
}

/// The keys of a commentary map in increasing order.
pub fn keys_in_order(m: &BTreeMap<usize, Commentary>) -> (v: Vec<usize>)
    ensures
        v@ == sorted_keys(m@.dom()),
        increasing(v@),
        v@.to_set() == m@.dom(),
{
    let mut v: Vec<usize> = Vec::new();
    let iter = m.iter();
    let ghost r = iter.remaining();
    let ghost keys = r.map_values(|kv: (&usize, &Commentary)| *kv.0);
    proof {
        lemma_increasing_keys(keys);
        assert(keys.to_set() =~= m@.dom()) by {
            assert forall|k: usize| keys.to_set().contains(k) implies m@.dom().contains(k) by {
                let i = choose|i: int| 0 <= i < keys.len() && keys[i] == k;
                assert(m@.contains_key(*r[i].0));
            }
            assert forall|k: usize| m@.dom().contains(k) implies keys.to_set().contains(k) by {
                assert(r.contains((&k, &m@[k])));
                let i = choose|i: int| 0 <= i < r.len() && r[i] == (&k, &m@[k]);
                assert(keys[i] == k);
            }
        }
    }
    for kv in it: iter
        invariant
            it.seq() == r,
            keys == r.map_values(|kv: (&usize, &Commentary)| *kv.0),
            increasing(keys),
            keys.to_set() == m@.dom(),
            v@ == it.seq().take(it.index()).map_values(|kv: (&usize, &Commentary)| *kv.0),
    {
        v.push(*kv.0);
        assert(it.seq().take(it.index() + 1).map_values(|kv: (&usize, &Commentary)| *kv.0) =~= 
            it.seq().take(it.index()).map_values(|kv: (&usize, &Commentary)| *kv.0).push(*kv.0));
    }
    proof {
        assert(v@ =~= keys);
        lemma_increasing_unique(keys, sorted_keys(m@.dom()));
    }
    v
}


/// The translation and the description of a commentary as they are shown,
/// with the cursor marked in the one it is in.
pub open spec fn commentary_parts(
    c: CommentaryModel,
    key: usize,
    p1: usize,
    sub: Option<CommentaryPosition>,
    edit: bool,
) -> (Seq<u8>, Seq<u8>) {
    if key == p1 && sub is Some {
        match sub.unwrap() {
            CommentaryPosition::Description(l, col) => (
                translation_bytes(c.translation),
                marked_description_bytes(c.description, l, col, edit),
            ),
            CommentaryPosition::Translation(col) => (
                match c.translation {
                    Some(t) => cursor_bytes(bytes(t), col, edit),
                    None => Seq::empty(),
                },
                description_bytes(c.description),
            ),
        }
    } else {
        (translation_bytes(c.translation), description_bytes(c.description))
    }
}

pub open spec fn commentary_parts_ok(
    c: CommentaryModel,
    key: usize,
    p1: usize,
    sub: Option<CommentaryPosition>,
    edit: bool,
) -> bool {
    key == p1 ==> match sub {
        Some(CommentaryPosition::Description(l, col)) => c.description matches Some(d) ==> (l
            < d.len() ==> cursor_ok(bytes(d[l as int]), col, edit)),
        Some(CommentaryPosition::Translation(col)) => c.translation matches Some(t) ==> cursor_ok(
            bytes(t),
            col,
            edit,
        ),
        None => true,
    }
}

/// The state while the current line is laid out: the text shown so far, the
/// rest of the line not yet shown, and the key of the last commentary.
pub struct Fold {
    pub text: Seq<u8>,
    pub plain: Seq<u8>,
    pub prev: usize,
}

/// Showing the commentary under `key`: the line up to `key` (with the cursor
/// when it is before `key` and not in a commentary), then the commentary.
pub open spec fn fold_step(
    f: Fold,
    key: usize,
    c: CommentaryModel,
    column: usize,
    p1: usize,
    sub: Option<CommentaryPosition>,
    edit: bool,
) -> Fold {
    let cut = key - f.prev;
    let head0 = f.plain.take(cut);
    let head = if p1 < key && sub is None {
        cursor_bytes(head0, (column - f.prev) as usize, false)
    } else {
        head0
    };
    let parts = commentary_parts(c, key, p1, sub, edit);
    Fold {
        text: f.text + (if f.text.len() == 0 {
            Seq::empty()
        } else {
            newline()
        }) + head + parts.0 + parts.1,
        plain: f.plain.skip(cut),
        prev: key,
    }
}

pub open spec fn fold_step_ok(
    f: Fold,
    key: usize,
    c: CommentaryModel,
    column: usize,
    p1: usize,
    sub: Option<CommentaryPosition>,
    edit: bool,
) -> bool {
    &&& f.prev <= key
    &&& is_char_boundary(f.plain, key - f.prev)
    &&& (p1 < key && sub is None) ==> f.prev <= column && cursor_ok(
        f.plain.take(key - f.prev),
        (column - f.prev) as usize,
        false,
    )
    &&& commentary_parts_ok(c, key, p1, sub, edit)
}

/// The layout after the first `n` commentaries (in key order).
pub open spec fn fold_upto(
    line: LineModel,
    keys: Seq<usize>,
    n: nat,
    column: usize,
    p1: usize,
    sub: Option<CommentaryPosition>,
    edit: bool,
) -> Fold
    decreases n,
{
    if n == 0 {
        Fold { text: Seq::empty(), plain: bytes(line.text), prev: 0 }
    } else {
        let k = keys[n - 1];
        fold_step(
            fold_upto(line, keys, (n - 1) as nat, column, p1, sub, edit),
            k,
            line.commentary[k],
            column,
            p1,
            sub,
            edit,
        )
    }
}

pub open spec fn fold_ok_upto(
    line: LineModel,
    keys: Seq<usize>,
    n: nat,
    column: usize,
    p1: usize,
    sub: Option<CommentaryPosition>,
    edit: bool,
) -> bool
    decreases n,
{
    n == 0 || {
        let k = keys[n - 1];
        &&& fold_ok_upto(line, keys, (n - 1) as nat, column, p1, sub, edit)
        &&& fold_step_ok(
            fold_upto(line, keys, (n - 1) as nat, column, p1, sub, edit),
            k,
            line.commentary[k],
            column,
            p1,
            sub,
            edit,
        )
    }
}

proof fn lemma_fold_ok_prefix(
    line: LineModel,
    keys: Seq<usize>,
    n: nat,
    j: nat,
    column: usize,
    p1: usize,
    sub: Option<CommentaryPosition>,
    edit: bool,
)
    requires
        j <= n,
        fold_ok_upto(line, keys, n, column, p1, sub, edit),
    ensures
        fold_ok_upto(line, keys, j, column, p1, sub, edit),
    decreases n,
{
    if j < n {
        lemma_fold_ok_prefix(line, keys, (n - 1) as nat, j, column, p1, sub, edit);
    }
}

/// The final layout of the current line: the commentaries in key order, then
/// the rest of the line (with the cursor when it is there).
pub open spec fn line_bytes(
    line: LineModel,
    p1: usize,
    sub: Option<CommentaryPosition>,
    edit: bool,
) -> Seq<u8> {
    let column = clamp_position(byte_len(line.text), p1);
    let keys = sorted_keys(line.commentary.dom());
    let f = fold_upto(line, keys, keys.len(), column, p1, sub, edit);
    let plain = if p1 >= f.prev && sub is None {
        cursor_bytes(f.plain, (column - f.prev) as usize, false)
    } else {
        f.plain
    };
    let sep = if f.text.len() == 0 && plain.len() != 0 {
        Seq::empty()
    } else {
        newline()
    };
    f.text + sep + plain
}

/// The current line is laid out without a panic: each commentary key falls
/// on a character boundary of the rest of the line, and each cursor can be
/// marked.
pub open spec fn line_ok(
    line: LineModel,
    p1: usize,
    sub: Option<CommentaryPosition>,
    edit: bool,
) -> bool {
    let column = clamp_position(byte_len(line.text), p1);
    let keys = sorted_keys(line.commentary.dom());
    let f = fold_upto(line, keys, keys.len(), column, p1, sub, edit);
    &&& fold_ok_upto(line, keys, keys.len(), column, p1, sub, edit)
    &&& (p1 >= f.prev && sub is None) ==> f.prev <= column && cursor_ok(
        f.plain,
        (column - f.prev) as usize,
        false,
    )
}

/// Whether the cursor can be marked in `s`.
fn cursor_fits(s: &str, column: usize, edit: bool) -> (r: bool)
    ensures
        r == cursor_ok(bytes(s@), column, edit),
{
    let len = byte_count(s);
    let mut col = if len == 0 {
        0
    } else {
        len - 1
    };
    if column < col {
        col = column;
    }
    if edit {
        col = col + 1;
    }
    if len == 0 || (edit && col == len) {
        true
    } else {
        s.is_char_boundary(col) && s.is_char_boundary(col + 1)
    }
}

fn commentary_fits(
    c: &Commentary,
    key: usize,
    p1: usize,
    sub: Option<CommentaryPosition>,
    edit: bool,
) -> (r: bool)
    ensures
        r == commentary_parts_ok(c@, key, p1, sub, edit),
{
    if key != p1 {
        return true;
    }
    match sub {
        Some(CommentaryPosition::Description(l, col)) => match &c.description_paragraph {
            Some(d) => l >= d.len() || cursor_fits(d[l].as_str(), col, edit),
            None => true,
        },
        Some(CommentaryPosition::Translation(col)) => match &c.sentence_translation {
            Some(t) => cursor_fits(t.as_str(), col, edit),
            None => true,
        },
        None => true,
    }
}

/// `a`, a line break unless `a` is empty, then `b`, `c` and `d`.
fn concat_parts(a: String, b: &String, c: &Option<String>, d: &String) -> (r: String)
    ensures
        bytes(r@) == bytes(a@) + (if bytes(a@).len() == 0 {
            Seq::empty()
        } else {
            newline()
        }) + bytes(b@) + translation_bytes(crate::structure::opt_string_view(*c)) + bytes(d@),
{
    proof {
        lemma_bytes_empty(a@);
    }
    let mut r = a;
    let ghost r0 = r@;
    if !r.as_str().is_empty() {
        proof {
            lemma_bytes_concat(r@, "\n"@);
        }
        r.append("\n");
    }
    let ghost r1 = r@;
    proof {
        lemma_bytes_concat(r@, b@);
    }
    r.append(b.as_str());
    match c {
        Some(t) => {
            proof {
                lemma_bytes_concat(r@, t@);
            }
            r.append(t.as_str());
        },
        None => {
            assert(r@ + Seq::<char>::empty() =~= r@);
        },
    }
    proof {
        lemma_bytes_concat(r@, d@);
    }
    r.append(d.as_str());
    proof {
        assert(bytes(r0) + (if bytes(r0).len() == 0 {
            Seq::empty()
        } else {
            newline()
        }) == bytes(r1));
    }
    r
}


/// Splits `s` at byte `mid`, a character boundary.
fn split_string(s: &String, mid: usize) -> (r: (String, String))
    requires
        is_char_boundary(bytes(s@), mid as int),
    ensures
        bytes(r.0@) == bytes(s@).take(mid as int),
        bytes(r.1@) == bytes(s@).skip(mid as int),
{
    let (a, b) = s.as_str().split_at(mid);
    (a.to_owned(), b.to_owned())
}

/// One commentary laid out: `None` where that would panic.
fn layout_step(
    text: String,
    plain: &String,
    prev: usize,
    key: usize,
    c: &Commentary,
    column: usize,
    p1: usize,
    sub: Option<CommentaryPosition>,
    translation_state: TranslationState,
) -> (r: Option<(String, String)>)
    requires
        prev <= key,
    ensures
        ({
            let f = Fold { text: bytes(text@), plain: bytes(plain@), prev };
            let edit = translation_state == TranslationState::Editing;
            &&& r is Some <==> fold_step_ok(f, key, c@, column, p1, sub, edit)
            &&& r matches Some((t, p)) ==> (Fold { text: bytes(t@), plain: bytes(p@), prev: key })
                == fold_step(f, key, c@, column, p1, sub, edit)
        }),
{
    let edit = translation_state == TranslationState::Editing;
    let cut = key - prev;
    let cursor_before = p1 < key && sub.is_none();
    let parts_fit = commentary_fits(c, key, p1, sub, edit);
    let boundary = plain.as_str().is_char_boundary(cut);
    let cursor_fit = if boundary && cursor_before && prev <= column {
        let (head, _) = plain.as_str().split_at(cut);
        cursor_fits(head, column - prev, false)
    } else {
        true
    };
    if !(boundary && (!cursor_before || (prev <= column && cursor_fit)) && parts_fit) {
        return None;
    }
    let (mut head, rest) = split_string(plain, cut);
    if cursor_before {
        cursor_ify(&mut head, column - prev, false, false);
    }
    let parts = if key == p1 && sub.is_some() {
        match sub {
            Some(CommentaryPosition::Description(l, col)) => cursor_ify_description(
                &translation_state,
                c,
                l,
                col,
            ),
            Some(CommentaryPosition::Translation(col)) => cursor_ify_translation(
                &translation_state,
                c,
                col,
            ),
            None => (None, String::new()),
        }
    } else {
        (clone_translation(&c.sentence_translation), description_text(&c.description_paragraph))
    };
    let t = concat_parts(text, &head, &parts.0, &parts.1);
    Some((t, rest))
}

/// The commentary `keys[j]` laid out after the first `j`: `None` where that
/// would panic.
fn layout_next(
    text: String,
    plain: &String,
    prev: usize,
    line: &Line,
    keys: &Vec<usize>,
    j: usize,
    column: usize,
    p1: usize,
    sub: Option<CommentaryPosition>,
    translation_state: TranslationState,
) -> (r: Option<(String, String, usize)>)
    requires
        j < keys.len(),
        increasing(keys@),
        keys@.to_set() == line@.commentary.dom(),
        prev == (if j == 0 {
            0
        } else {
            keys@[j - 1]
        }),
        (Fold { text: bytes(text@), plain: bytes(plain@), prev }) == fold_upto(
            line@,
            keys@,
            j as nat,
            column,
            p1,
            sub,
            translation_state == TranslationState::Editing,
        ),
    ensures
        ({
            let edit = translation_state == TranslationState::Editing;
            let f = fold_upto(line@, keys@, j as nat, column, p1, sub, edit);
            let key = keys@[j as int];
            &&& r is Some <==> fold_step_ok(f, key, line@.commentary[key], column, p1, sub, edit)
            &&& r matches Some((t, p, pv)) ==> pv == key && (Fold {
                text: bytes(t@),
                plain: bytes(p@),
                prev: pv,
            }) == fold_upto(line@, keys@, (j + 1) as nat, column, p1, sub, edit)
        }),
{
    let key = keys[j];
    proof {
        assert(keys@.to_set().contains(key));
        if j > 0 {
            assert(keys@[j - 1] < keys@[j as int]);
        }
    }
    let c = line.commentary.get(&key).unwrap();
    assert(c@ == line@.commentary[key]);
    match layout_step(text, plain, prev, key, c, column, p1, sub, translation_state) {
        Some((t, p)) => Some((t, p, key)),
        None => None,
    }
}

/// The current line laid out, or `None` where laying it out would panic.
#[verifier::spinoff_prover]
#[verifier::rlimit(80)]
pub fn try_render_line(
    line: &Line,
    p1: usize,
    sub: Option<CommentaryPosition>,
    translation_state: TranslationState,
) -> (r: Option<String>)
    ensures
        r is Some <==> line_ok(line@, p1, sub, translation_state == TranslationState::Editing),
        r matches Some(t) ==> bytes(t@) == line_bytes(
            line@,
            p1,
            sub,
            translation_state == TranslationState::Editing,
        ),
{
    let edit = translation_state == TranslationState::Editing;
    let ghost lm = line@;
    let column = position_or_text_len(p1, line.text.as_str());
    let keys = keys_in_order(&line.commentary);
    let ghost ks = keys@;
    let ghost n = ks.len();
    proof {
        assert(lm.commentary.dom() =~= line.commentary@.dom());
    }
    let mut text = String::new();
    let mut plain = line.text.clone();
    let mut prev: usize = 0;
    let mut ok = true;
    let mut j: usize = 0;
    assert(bytes(text@) =~= Seq::<u8>::empty());
    while j < keys.len()
        invariant
            edit == (translation_state == TranslationState::Editing),
            lm == line@,
            ks == keys@,
            ks == sorted_keys(lm.commentary.dom()),
            n == ks.len(),
            increasing(ks),
            ks.to_set() == lm.commentary.dom(),
            column == clamp_position(byte_len(lm.text), p1),
            j <= keys.len(),
            ok ==> (Fold { text: bytes(text@), plain: bytes(plain@), prev }) == fold_upto(
                lm,
                ks,
                j as nat,
                column,
                p1,
                sub,
                edit,
            ),
            ok ==> fold_ok_upto(lm, ks, j as nat, column, p1, sub, edit),
            ok ==> prev == (if j == 0 {
                0
            } else {
                ks[j - 1]
            }),
            !ok ==> !fold_ok_upto(lm, ks, n, column, p1, sub, edit),
        decreases keys.len() - j,
    {
        if !ok {
            j = j + 1;
            continue;
        }
        match layout_next(text, &plain, prev, line, &keys, j, column, p1, sub, translation_state) {
            Some((t, p, pv)) => {
                text = t;
                plain = p;
                prev = pv;
            },
            None => {
                proof {
                    if fold_ok_upto(lm, ks, n, column, p1, sub, edit) {
                        lemma_fold_ok_prefix(lm, ks, n, (j + 1) as nat, column, p1, sub, edit);
                    }
                }
                ok = false;
                text = String::new();
            },
        }
        j = j + 1;
    }
    if !ok {
        return None;
    }
    proof {
        assert(ks.take(n as int) =~= ks);
    }
    if p1 >= prev && sub.is_none() {
        if !(prev <= column && cursor_fits(plain.as_str(), column - prev, false)) {
            return None;
        }
        cursor_ify(&mut plain, column - prev, false, false);
    }
    proof {
        lemma_bytes_empty(text@);
        lemma_bytes_empty(plain@);
    }
    let sep_empty = text.as_str().is_empty() && !plain.as_str().is_empty();
    let mut r = text;
    if !sep_empty {
        proof {
            lemma_bytes_concat(r@, "\n"@);
        }
        r.append("\n");
    }
    proof {
        lemma_bytes_concat(r@, plain@);
    }
    r.append(plain.as_str());
    Some(r)
}


/// The lines shown for a translating session, before they are joined.
pub open spec fn shown_lines(
    current: Seq<LineModel>,
    position: (usize, usize),
    sub: Option<CommentaryPosition>,
    edit: bool,
) -> Seq<Seq<u8>> {
    Seq::new(
        current.len(),
        |i: int|
            if i == position.0 {
                line_bytes(current[i], position.1, sub, edit)
            } else {
                bytes(current[i].text)
            },
    )
}

/// What a translating session shows: its lines, one per line of the screen
/// text, the current one laid out with its commentary and the cursor.
pub open spec fn render_bytes(
    current: Seq<LineModel>,
    position: (usize, usize),
    sub: Option<CommentaryPosition>,
    edit: bool,
) -> Seq<u8> {
    join_with(shown_lines(current, position, sub, edit), newline())
}

/// The session can be shown without a panic.
pub open spec fn render_ok(
    current: Seq<LineModel>,
    position: (usize, usize),
    sub: Option<CommentaryPosition>,
    edit: bool,
) -> bool {
    position.0 < current.len() ==> line_ok(current[position.0 as int], position.1, sub, edit)
}

/// The text shown for a translating session, or `None` where showing it
/// would panic.
pub fn try_render_text(
    current: &Text,
    translation_state: &TranslationState,
    position: &(usize, usize),
    sub_position: &Option<CommentaryPosition>,
) -> (r: Option<String>)
    ensures
        r is Some <==> render_ok(
            current@,
            *position,
            *sub_position,
            *translation_state == TranslationState::Editing,
        ),
        r matches Some(t) ==> bytes(t@) == render_bytes(
            current@,
            *position,
            *sub_position,
            *translation_state == TranslationState::Editing,
        ),
{
    let ghost edit = *translation_state == TranslationState::Editing;
    let ghost all = shown_lines(current@, *position, *sub_position, edit);
    let mut pieces: Vec<String> = Vec::new();
    for i in 0..current.text.len()
        invariant
            edit == (*translation_state == TranslationState::Editing),
            all == shown_lines(current@, *position, *sub_position, edit),
            pieces@.len() == i,
            position.0 < i ==> line_ok(
                current@[position.0 as int],
                position.1,
                *sub_position,
                edit,
            ),
            forall|k: int| 0 <= k < i ==> bytes(#[trigger] pieces@[k]@) == all[k],
    {
        if i == position.0 {
            match try_render_line(&current.text[i], position.1, *sub_position, *translation_state) {
                Some(l) => pieces.push(l),
                None => return None,
            }
        } else {
            pieces.push(current.text[i].text.clone());
        }
    }
    let r = join_strings(&pieces, "\n");
    assert(strings_bytes(pieces@.map_values(|p: String| p@)) =~= all);
    Some(r)
}

/// The text shown for a translating session.
pub fn render_text(
    current: &Text,
    translation_state: &TranslationState,
    position: &(usize, usize),
    sub_position: &Option<CommentaryPosition>,
) -> (r: String)
    requires
        render_ok(
            current@,
            *position,
            *sub_position,
            *translation_state == TranslationState::Editing,
        ),
    ensures
        bytes(r@) == render_bytes(
            current@,
            *position,
            *sub_position,
            *translation_state == TranslationState::Editing,
        ),
{
    try_render_text(current, translation_state, position, sub_position).unwrap()
}


/// The state of the layout as far as the cursor goes: not drawn yet (and
/// the last key not past the cursor), or drawn once (and the last key past
/// the cursor).
pub open spec fn fold_cursor_inv(f: Fold, p1: usize) -> bool {
    &&& escape_free(f.plain)
    &&& valid_utf8(f.plain)
    &&& {
        ||| f.prev <= p1 && escape_free(f.text)
        ||| f.prev > p1 && exists|i: int| marked_once_at(f.text, i)
    }
}

#[verifier::spinoff_prover]
#[verifier::rlimit(40)]
proof fn lemma_fold_step_cursor(
    f: Fold,
    key: usize,
    c: CommentaryModel,
    column: usize,
    p1: usize,
    edit: bool,
)
    requires
        fold_step_ok(f, key, c, column, p1, None, edit),
        fold_cursor_inv(f, p1),
        commentary_escape_free(c),
        column <= p1,
    ensures
        fold_cursor_inv(fold_step(f, key, c, column, p1, None, edit), p1),
{
    lemma_commentary_bytes_escape_free(c);
    let cut = key - f.prev;
    assert(is_char_boundary(f.plain, cut));
    assert(0 <= cut <= f.plain.len());
    valid_utf8_split(f.plain, cut);
    let head0 = f.plain.take(cut);
    assert(escape_free(head0)) by {
        assert forall|j: int| 0 <= j < head0.len() implies head0[j] != 27u8 by {
            assert(head0[j] == f.plain[j]);
        }
    }
    let f2 = fold_step(f, key, c, column, p1, None, edit);
    assert(f2.plain =~= f.plain.subrange(cut as int, f.plain.len() as int));
    assert(escape_free(f2.plain)) by {
        assert forall|j: int| 0 <= j < f2.plain.len() implies f2.plain[j] != 27u8 by {
            assert(f2.plain[j] == f.plain[j + cut]);
        }
    }
    let sep = if f.text.len() == 0 {
        Seq::<u8>::empty()
    } else {
        newline()
    };
    lemma_newline_escape_free();
    assert(escape_free(sep));
    let tail = translation_bytes(c.translation) + description_bytes(c.description);
    lemma_escape_free_concat(translation_bytes(c.translation), description_bytes(c.description));
    assert(f.prev <= p1 && escape_free(f.text));
    lemma_escape_free_concat(f.text, sep);
    if p1 < key {
        let head = cursor_bytes(head0, (column - f.prev) as usize, false);
        lemma_cursor_marked_once(head0, (column - f.prev) as usize, false);
        let i = cursor_start(head0, (column - f.prev) as usize, false);
        assert(marked_once_at(head, i));
        lemma_marked_once_concat(f.text + sep, head, tail, i);
        assert(f2.text =~= (f.text + sep) + head + tail);
    } else {
        lemma_escape_free_concat(f.text + sep, head0);
        lemma_escape_free_concat(f.text + sep + head0, tail);
        assert(f2.text =~= f.text + sep + head0 + tail);
    }
}

proof fn lemma_fold_cursor(
    line: LineModel,
    keys: Seq<usize>,
    n: nat,
    column: usize,
    p1: usize,
    edit: bool,
)
    requires
        n <= keys.len(),
        fold_ok_upto(line, keys, n, column, p1, None, edit),
        line_escape_free(line),
        forall|i: int| 0 <= i < keys.len() ==> line.commentary.contains_key(#[trigger] keys[i]),
        column <= p1,
    ensures
        fold_cursor_inv(fold_upto(line, keys, n, column, p1, None, edit), p1),
    decreases n,
{
    if n == 0 {
        lemma_bytes_escape_free(line.text);
        encode_utf8_valid_utf8(line.text);
    } else {
        let m = (n - 1) as nat;
        lemma_fold_cursor(line, keys, m, column, p1, edit);
        let key = keys[n - 1];
        assert(line.commentary.contains_key(key));
        lemma_fold_step_cursor(
            fold_upto(line, keys, m, column, p1, None, edit),
            key,
            line.commentary[key],
            column,
            p1,
            edit,
        );
    }
}

/// With the cursor in no commentary, a line that can be shown shows the
/// cursor exactly once, whatever commentaries lie before or after it: where
/// the line's text and commentary hold no escape character, its screen
/// text holds the highlight code once and the reset code once, eight bytes
/// apart, and no other escape byte.
/// The part of a commentary that the cursor position `sub` points into is
/// there: the translation, or the description line.
pub open spec fn cursor_target(c: CommentaryModel, sub: Option<CommentaryPosition>) -> bool {
    match sub {
        Some(CommentaryPosition::Translation(_)) => c.translation is Some,
        Some(CommentaryPosition::Description(l, _)) => c.description matches Some(d) && l < d.len(),
        None => false,
    }
}

proof fn lemma_join_marked(parts: Seq<Seq<u8>>, sep: Seq<u8>, l: int)
    requires
        0 <= l < parts.len(),
        exists|i: int| marked_once_at(parts[l], i),
        forall|j: int| 0 <= j < parts.len() && j != l ==> escape_free(#[trigger] parts[j]),
        escape_free(sep),
    ensures
        exists|i: int| marked_once_at(join_with(parts, sep), i),
    decreases parts.len(),
{
    let e = Seq::<u8>::empty();
    if parts.len() == 1 {
        assert(join_with(parts, sep) == parts[0]);
    } else {
        let front = parts.drop_last();
        let last = parts.last();
        let r = join_with(parts, sep);
        assert(r == join_with(front, sep) + sep + last);
        if l == parts.len() - 1 {
            assert forall|j: int| 0 <= j < front.len() implies escape_free(#[trigger] front[j]) by {
                assert(front[j] == parts[j]);
            }
            lemma_join_escape_free(front, sep);
            lemma_escape_free_concat(join_with(front, sep), sep);
            let i = choose|i: int| marked_once_at(parts[l], i);
            lemma_marked_once_concat(join_with(front, sep) + sep, last, e, i);
            assert(r =~= join_with(front, sep) + sep + last + e);
        } else {
            assert(front[l] == parts[l]);
            assert forall|j: int| 0 <= j < front.len() && j != l implies escape_free(
                #[trigger] front[j],
            ) by {
                assert(front[j] == parts[j]);
            }
            lemma_join_marked(front, sep, l);
            assert(escape_free(parts[parts.len() - 1]));
            lemma_escape_free_concat(sep, last);
            let i = choose|i: int| marked_once_at(join_with(front, sep), i);
            lemma_marked_once_concat(e, join_with(front, sep), sep + last, i);
            assert(r =~= e + join_with(front, sep) + (sep + last));
        }
    }
}

proof fn lemma_commentary_parts_cursor(
    c: CommentaryModel,
    key: usize,
    p1: usize,
    sub: Option<CommentaryPosition>,
    edit: bool,
)
    requires
        commentary_escape_free(c),
        sub is Some,
        key == p1 ==> cursor_target(c, sub),
    ensures
        key != p1 ==> escape_free(
            commentary_parts(c, key, p1, sub, edit).0 + commentary_parts(c, key, p1, sub, edit).1,
        ),
        key == p1 ==> exists|i: int|
            marked_once_at(
                commentary_parts(c, key, p1, sub, edit).0 + commentary_parts(
                    c,
                    key,
                    p1,
                    sub,
                    edit,
                ).1,
                i,
            ),
{
    lemma_commentary_bytes_escape_free(c);
    lemma_newline_escape_free();
    let parts = commentary_parts(c, key, p1, sub, edit);
    let e = Seq::<u8>::empty();
    if key != p1 {
        lemma_escape_free_concat(translation_bytes(c.translation), description_bytes(c.description));
    } else {
        match sub.unwrap() {
            CommentaryPosition::Translation(col) => {
                let t = c.translation.unwrap();
                lemma_bytes_escape_free(t);
                lemma_cursor_marked_once(bytes(t), col, edit);
                let i = cursor_start(bytes(t), col, edit);
                lemma_marked_once_concat(e, parts.0, parts.1, i);
                assert(parts.0 + parts.1 =~= e + parts.0 + parts.1);
            },
            CommentaryPosition::Description(l, col) => {
                let d = c.description.unwrap();
                let ml = marked_lines(d, l, col, edit);
                assert forall|j: int| 0 <= j < ml.len() && j != l implies escape_free(
                    #[trigger] ml[j],
                ) by {
                    assert(chars_escape_free(d[j]));
                    lemma_bytes_escape_free(d[j]);
                }
                assert(chars_escape_free(d[l as int]));
                lemma_bytes_escape_free(d[l as int]);
                lemma_cursor_marked_once(bytes(d[l as int]), col, edit);
                assert(marked_once_at(ml[l as int], cursor_start(bytes(d[l as int]), col, edit)));
                lemma_join_marked(ml, newline(), l as int);
                let i = choose|i: int| marked_once_at(join_with(ml, newline()), i);
                lemma_escape_free_concat(parts.0, newline());
                lemma_marked_once_concat(parts.0 + newline(), join_with(ml, newline()), newline(), i);
                assert(parts.0 + parts.1 =~= (parts.0 + newline()) + join_with(ml, newline())
                    + newline());
            },
        }
    }
}

#[verifier::spinoff_prover]
#[verifier::rlimit(40)]
proof fn lemma_fold_step_cursor_sub(
    f: Fold,
    key: usize,
    c: CommentaryModel,
    column: usize,
    p1: usize,
    sub: Option<CommentaryPosition>,
    edit: bool,
)
    requires
        fold_step_ok(f, key, c, column, p1, sub, edit),
        escape_free(f.plain),
        valid_utf8(f.plain),
        commentary_escape_free(c),
        sub is Some,
        key == p1 ==> cursor_target(c, sub),
    ensures
        ({
            let f2 = fold_step(f, key, c, column, p1, sub, edit);
            &&& escape_free(f2.plain)
            &&& valid_utf8(f2.plain)
            &&& escape_free(f.text) && key != p1 ==> escape_free(f2.text)
            &&& escape_free(f.text) && key == p1 ==> exists|i: int| marked_once_at(f2.text, i)
            &&& (exists|i: int| marked_once_at(f.text, i)) && key != p1 ==> exists|i: int|
                marked_once_at(f2.text, i)
        }),
{
    lemma_commentary_parts_cursor(c, key, p1, sub, edit);
    let cut = key - f.prev;
    assert(is_char_boundary(f.plain, cut));
    assert(0 <= cut <= f.plain.len());
    valid_utf8_split(f.plain, cut);
    let head0 = f.plain.take(cut);
    assert(escape_free(head0)) by {
        assert forall|j: int| 0 <= j < head0.len() implies head0[j] != 27u8 by {
            assert(head0[j] == f.plain[j]);
        }
    }
    let f2 = fold_step(f, key, c, column, p1, sub, edit);
    assert(f2.plain =~= f.plain.subrange(cut as int, f.plain.len() as int));
    assert(escape_free(f2.plain)) by {
        assert forall|j: int| 0 <= j < f2.plain.len() implies f2.plain[j] != 27u8 by {
            assert(f2.plain[j] == f.plain[j + cut]);
        }
    }
    let sep = if f.text.len() == 0 {
        Seq::<u8>::empty()
    } else {
        newline()
    };
    lemma_newline_escape_free();
    assert(escape_free(sep));
    let parts = commentary_parts(c, key, p1, sub, edit);
    let tail = parts.0 + parts.1;
    assert(f2.text =~= f.text + sep + head0 + tail);
    let e = Seq::<u8>::empty();
    lemma_escape_free_concat(sep, head0);
    if key != p1 {
        lemma_escape_free_concat(sep + head0, tail);
        assert(f2.text =~= f.text + ((sep + head0) + tail));
        if escape_free(f.text) {
            lemma_escape_free_concat(f.text, (sep + head0) + tail);
        }
        if exists|i: int| marked_once_at(f.text, i) {
            let i = choose|i: int| marked_once_at(f.text, i);
            lemma_marked_once_concat(e, f.text, (sep + head0) + tail, i);
            assert(f2.text =~= e + f.text + ((sep + head0) + tail));
        }
    } else if escape_free(f.text) {
        lemma_escape_free_concat(f.text, sep + head0);
        let i = choose|i: int| marked_once_at(tail, i);
        lemma_marked_once_concat(f.text + (sep + head0), tail, e, i);
        assert(f2.text =~= f.text + (sep + head0) + tail + e);
    }
}

proof fn lemma_fold_cursor_sub(
    line: LineModel,
    keys: Seq<usize>,
    n: nat,
    column: usize,
    p1: usize,
    sub: Option<CommentaryPosition>,
    edit: bool,
)
    requires
        n <= keys.len(),
        increasing(keys),
        fold_ok_upto(line, keys, n, column, p1, sub, edit),
        line_escape_free(line),
        forall|i: int| 0 <= i < keys.len() ==> line.commentary.contains_key(#[trigger] keys[i]),
        sub is Some,
        line.commentary.contains_key(p1),
        cursor_target(line.commentary[p1], sub),
    ensures
        escape_free(fold_upto(line, keys, n, column, p1, sub, edit).plain),
        valid_utf8(fold_upto(line, keys, n, column, p1, sub, edit).plain),
        (forall|i: int| 0 <= i < n ==> keys[i] != p1) ==> escape_free(
            fold_upto(line, keys, n, column, p1, sub, edit).text,
        ),
        (exists|i: int| 0 <= i < n && keys[i] == p1) ==> exists|m: int|
            marked_once_at(fold_upto(line, keys, n, column, p1, sub, edit).text, m),
    decreases n,
{
    if n == 0 {
        lemma_bytes_escape_free(line.text);
        encode_utf8_valid_utf8(line.text);
    } else {
        let m = (n - 1) as nat;
        lemma_fold_cursor_sub(line, keys, m, column, p1, sub, edit);
        let key = keys[n - 1];
        assert(line.commentary.contains_key(key));
        let f = fold_upto(line, keys, m, column, p1, sub, edit);
        lemma_fold_step_cursor_sub(f, key, line.commentary[key], column, p1, sub, edit);
        if key == p1 {
            assert forall|i: int| 0 <= i < m implies keys[i] != p1 by {
                assert(keys[i] < keys[n - 1]);
            }
        } else {
            if exists|i: int| 0 <= i < n && keys[i] == p1 {
                let i = choose|i: int| 0 <= i < n && keys[i] == p1;
                assert(i < m);
            }
        }
    }
}

/// With the cursor in a commentary (its translation or a line of its
/// description, where that is there), a line that can be shown shows the
/// cursor exactly once, inside that commentary: where the line's text and
/// commentary hold no escape character, its screen text holds the
/// highlight code once and the reset code once, eight bytes apart, and no
/// other escape byte.
#[verifier::spinoff_prover]
#[verifier::rlimit(40)]
pub proof fn lemma_commentary_cursor_shown_once(
    line: LineModel,
    p1: usize,
    sub: Option<CommentaryPosition>,
    edit: bool,
)
    requires
        line_ok(line, p1, sub, edit),
        line.commentary.dom().finite(),
        line_escape_free(line),
        sub is Some,
        line.commentary.contains_key(p1),
        cursor_target(line.commentary[p1], sub),
    ensures
        exists|i: int| marked_once_at(line_bytes(line, p1, sub, edit), i),
{
    let column = clamp_position(byte_len(line.text), p1);
    let keys = sorted_keys(line.commentary.dom());
    lemma_sorted_keys(line.commentary.dom());
    assert forall|i: int| 0 <= i < keys.len() implies line.commentary.contains_key(
        #[trigger] keys[i],
    ) by {
        assert(keys.to_set().contains(keys[i]));
    }
    assert(keys.to_set().contains(p1));
    let j = choose|j: int| 0 <= j < keys.len() && keys[j] == p1;
    lemma_fold_cursor_sub(line, keys, keys.len(), column, p1, sub, edit);
    let f = fold_upto(line, keys, keys.len(), column, p1, sub, edit);
    let r = line_bytes(line, p1, sub, edit);
    let sep = if f.text.len() == 0 && f.plain.len() != 0 {
        Seq::<u8>::empty()
    } else {
        newline()
    };
    lemma_newline_escape_free();
    assert(r == f.text + sep + f.plain);
    let i = choose|i: int| marked_once_at(f.text, i);
    lemma_escape_free_concat(sep, f.plain);
    lemma_marked_once_concat(Seq::<u8>::empty(), f.text, sep + f.plain, i);
    assert(r =~= Seq::<u8>::empty() + f.text + (sep + f.plain));
}

/// Where the cursor is marked once, the highlight code stands nowhere else.
proof fn lemma_marked_once_unique(r: Seq<u8>, at: int)
    requires
        marked_once_at(r, at),
    ensures
        forall|j: int|
            0 <= j && j + 7 <= r.len() && #[trigger] r.subrange(j, j + 7) == cursor_on() ==> j
                == at,
{
    lemma_cursor_codes();
    assert forall|j: int|
        0 <= j && j + 7 <= r.len() && #[trigger] r.subrange(j, j + 7) == cursor_on() implies j
        == at by {
        assert(r[j] == r.subrange(j, j + 7)[0]);
        assert(r[j + 2] == r.subrange(j, j + 7)[2]);
        if j == at + 8 {
            assert(r[at + 10] == r.subrange(at + 8, at + 12)[2]);
        }
    }
}

#[verifier::spinoff_prover]
#[verifier::rlimit(60)]
pub proof fn lemma_cursor_shown_once(line: LineModel, p1: usize, edit: bool)
    requires
        line_ok(line, p1, None, edit),
        line.commentary.dom().finite(),
        line_escape_free(line),
    ensures
        exists|i: int| marked_once_at(line_bytes(line, p1, None, edit), i),
        exists|i: int|
            #![trigger line_bytes(line, p1, None, edit).subrange(i, i + 7)]
            0 <= i && i + 7 <= line_bytes(line, p1, None, edit).len() && line_bytes(
                line,
                p1,
                None,
                edit,
            ).subrange(i, i + 7) == cursor_on() && forall|j: int|
                0 <= j && j + 7 <= line_bytes(line, p1, None, edit).len() && #[trigger] line_bytes(
                    line,
                    p1,
                    None,
                    edit,
                ).subrange(j, j + 7) == cursor_on() ==> j == i,
{
    let column = clamp_position(byte_len(line.text), p1);
    let keys = sorted_keys(line.commentary.dom());
    lemma_sorted_keys(line.commentary.dom());
    assert forall|i: int| 0 <= i < keys.len() implies line.commentary.contains_key(
        #[trigger] keys[i],
    ) by {
        assert(keys.to_set().contains(keys[i]));
    }
    lemma_fold_cursor(line, keys, keys.len(), column, p1, edit);
    let f = fold_upto(line, keys, keys.len(), column, p1, None, edit);
    let r = line_bytes(line, p1, None, edit);
    let plain = if p1 >= f.prev {
        cursor_bytes(f.plain, (column - f.prev) as usize, false)
    } else {
        f.plain
    };
    let sep = if f.text.len() == 0 && plain.len() != 0 {
        Seq::<u8>::empty()
    } else {
        newline()
    };
    lemma_newline_escape_free();
    assert(escape_free(sep));
    assert(r == f.text + sep + plain);
    let e = Seq::<u8>::empty();
    let mut at: int = 0;
    if p1 >= f.prev {
        lemma_cursor_marked_once(f.plain, (column - f.prev) as usize, false);
        let i = cursor_start(f.plain, (column - f.prev) as usize, false);
        assert(marked_once_at(plain, i));
        lemma_escape_free_concat(f.text, sep);
        lemma_marked_once_concat(f.text + sep, plain, e, i);
        assert(r =~= f.text + sep + plain + e);
        at = (f.text + sep).len() + i;
    } else {
        let i = choose|i: int| marked_once_at(f.text, i);
        lemma_escape_free_concat(sep, plain);
        lemma_marked_once_concat(e, f.text, sep + plain, i);
        assert(r =~= e + f.text + (sep + plain));
        at = i;
    }
    assert(marked_once_at(r, at));
    lemma_marked_once_unique(r, at);
}

/// What a translating session shows holds the cursor exactly once, on the
/// current line: where no line's text or commentary holds an escape
/// character and the cursor is in the text or in a part of a commentary
/// that is there, the screen text holds the highlight code once and the
/// reset code once, eight bytes apart, and no other escape byte.
pub proof fn lemma_screen_cursor_once(
    current: Seq<LineModel>,
    position: (usize, usize),
    sub: Option<CommentaryPosition>,
    edit: bool,
)
    requires
        render_ok(current, position, sub, edit),
        position.0 < current.len(),
        forall|i: int|
            0 <= i < current.len() ==> line_escape_free(#[trigger] current[i])
                && current[i].commentary.dom().finite(),
        sub is Some ==> current[position.0 as int].commentary.contains_key(position.1)
            && cursor_target(current[position.0 as int].commentary[position.1], sub),
    ensures
        exists|i: int| marked_once_at(render_bytes(current, position, sub, edit), i),
{
    let lines = shown_lines(current, position, sub, edit);
    let p0 = position.0 as int;
    assert(line_escape_free(current[p0]));
    if sub is None {
        lemma_cursor_shown_once(current[p0], position.1, edit);
    } else {
        lemma_commentary_cursor_shown_once(current[p0], position.1, sub, edit);
    }
    assert(lines[p0] == line_bytes(current[p0], position.1, sub, edit));
    assert forall|j: int| 0 <= j < lines.len() && j != p0 implies escape_free(#[trigger] lines[j]) by {
        assert(line_escape_free(current[j]));
        lemma_bytes_escape_free(current[j].text);
    }
    lemma_newline_escape_free();
    assert(exists|i: int| marked_once_at(lines[p0], i));
    lemma_join_marked(lines, newline(), p0);
    assert(render_bytes(current, position, sub, edit) == join_with(lines, newline()));
}

proof fn lemma_sorted_keys_empty(keys: Set<usize>)
    requires
        keys.len() == 0,
        keys.finite(),
    ensures
        sorted_keys(keys) == Seq::<usize>::empty(),
{
    let e = Seq::<usize>::empty();
    assert(e.to_set() =~= keys) by {
        if exists|k: usize| keys.contains(k) {
            let k = choose|k: usize| keys.contains(k);
            vstd::set_lib::lemma_set_empty_equivalency_len(keys);
        }
    }
    lemma_increasing_unique(e, sorted_keys(keys));
}

/// A line without commentary, with the cursor not inside a commentary, is
/// shown as its text with the cursor marked at the cursor's column.
pub proof fn lemma_line_without_commentary(line: LineModel, p1: usize, edit: bool)
    requires
        line.commentary.dom().len() == 0,
        line.commentary.dom().finite(),
    ensures
        line_bytes(line, p1, None, edit) == cursor_bytes(
            bytes(line.text),
            clamp_position(byte_len(line.text), p1),
            false,
        ),
{
    lemma_sorted_keys_empty(line.commentary.dom());
    let b = bytes(line.text);
    let column = clamp_position(byte_len(line.text), p1);
    let plain = cursor_bytes(b, column, false);
    reveal_strlit("\x1b[47;5m \x1b[0m");
    lemma_bytes_empty("\x1b[47;5m \x1b[0m"@);
    if !cursor_at_end(b, column, false) {
        let c = cursor_column(b, column, false);
        assert(b.subrange(c, c + 1).len() == 1);
    }
    assert(plain.len() != 0);
    assert(Seq::<u8>::empty() + Seq::<u8>::empty() + plain =~= plain);
}

} // verus!
