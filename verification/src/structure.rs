//! The data model: a text is a sequence of lines; a line holds its text, the
//! ranges (in character positions) of its words and the commentary attached to
//! positions of the line.
use rangemap::RangeMap;
use std::collections::BTreeMap;
use vstd::prelude::*;
use vstd::string::StrSliceExecFns;
use vstd::utf8::encode_utf8;

verus! {

#[verifier::external_type_specification]
#[verifier::external_body]
#[verifier::reject_recursive_types(K)]
#[verifier::reject_recursive_types(V)]
pub struct ExRangeMap<K, V>(RangeMap<K, V>);

/// The model of a word: its text, its pronunciation and its translation.
pub type WordModel = (Seq<char>, Option<Seq<char>>, Option<Seq<char>>);

/// The entries of a word map, ordered by range: `(start, end, word)` for the
/// half-open range `start..end` of character positions.
pub uninterp spec fn word_entries(m: RangeMap<usize, Word>) -> Seq<(usize, usize, WordModel)>;

pub open spec fn opt_string_view(o: Option<String>) -> Option<Seq<char>> {
    match o {
        Some(s) => Some(s@),
        None => None,
    }
}

/// The number of bytes of the UTF-8 encoding of `s`, as `str::len` reports it.
pub open spec fn byte_len(s: Seq<char>) -> usize {
    encode_utf8(s).len() as usize
}

#[derive(Debug, Clone, PartialEq, Eq, PartialOrd, Ord)]
pub struct Word {
    pub word: String,
    pub prounouciation: Option<String>,
    pub translation: Option<String>,
}

impl View for Word {
    type V = WordModel;

    open spec fn view(&self) -> WordModel {
        (self.word@, opt_string_view(self.prounouciation), opt_string_view(self.translation))
    }
}

/// `RangeMap::new`: the new map holds no entry.
#[verifier::external_body]
pub(crate) fn new_word_map() -> (m: RangeMap<usize, Word>)
    ensures
        word_entries(m) == Seq::<(usize, usize, WordModel)>::empty(),
{
    RangeMap::new()
}

/// `RangeMap::insert`, stated for a non-empty range that starts after the end
/// of every stored range with a gap between them: then nothing is split or
/// coalesced, and the entry is appended after the stored ones. (The source
/// panics on an empty range.)
#[verifier::external_body]
pub(crate) fn insert_word(m: &mut RangeMap<usize, Word>, start: usize, end: usize, word: Word)
    requires
        start < end,
        forall|i: int|
            0 <= i < word_entries(*old(m)).len() ==> #[trigger] word_entries(*old(m))[i].1 < start,
    ensures
        word_entries(*final(m)) == word_entries(*old(m)).push((start, end, word@)),
{
    m.insert(start..end, word);
}

/// `RangeMap::get_key_value`, with the range handed out as its two bounds:
/// `None` when no stored range contains `point`, otherwise the bounds of the
/// stored range that contains it (stored ranges never overlap, so no other
/// stored range contains it).
#[verifier::external_body]
pub(crate) fn word_range_at(m: &RangeMap<usize, Word>, point: usize) -> (r: Option<(usize, usize)>)
    ensures
        r is None <==> forall|i: int|
            0 <= i < word_entries(*m).len() ==> !(#[trigger] word_entries(*m)[i].0 <= point
                < word_entries(*m)[i].1),
        r matches Some((s, e)) ==> s <= point < e && (exists|i: int|
            0 <= i < word_entries(*m).len() && #[trigger] word_entries(*m)[i].0 == s
                && word_entries(*m)[i].1 == e),
        r matches Some((s, e)) ==> forall|i: int|
            0 <= i < word_entries(*m).len() && #[trigger] word_entries(*m)[i].0 <= point
                < word_entries(*m)[i].1 ==> word_entries(*m)[i].0 == s && word_entries(*m)[i].1
                == e,
{
    m.get_key_value(&point).map(|(range, _)| (range.start, range.end))
}


/// The model of a commentary: a sentence translation and a description made
/// of paragraph lines.
pub struct CommentaryModel {
    pub translation: Option<Seq<char>>,
    pub description: Option<Seq<Seq<char>>>,
}

pub open spec fn strings_view(v: Vec<String>) -> Seq<Seq<char>> {
    v@.map_values(|s: String| s@)
}

#[derive(Debug, Clone)]
pub struct Commentary {
    pub sentence_translation: Option<String>,
    pub description_paragraph: Option<Vec<String>>,
}

impl View for Commentary {
    type V = CommentaryModel;

    open spec fn view(&self) -> CommentaryModel {
        CommentaryModel {
            translation: opt_string_view(self.sentence_translation),
            description: match self.description_paragraph {
                Some(v) => Some(strings_view(v)),
                None => None,
            },
        }
    }
}

/// The model of a line.
pub struct LineModel {
    pub len: usize,
    pub text: Seq<char>,
    pub words: Seq<(usize, usize, WordModel)>,
    pub commentary: Map<usize, CommentaryModel>,
}

#[derive(Debug)]
pub struct Line {
    pub len: usize,
    pub text: String,
    pub words: RangeMap<usize, Word>,
    pub commentary: BTreeMap<usize, Commentary>,
}

impl View for Line {
    type V = LineModel;

    open spec fn view(&self) -> LineModel {
        LineModel {
            len: self.len,
            text: self.text@,
            words: word_entries(self.words),
            commentary: self.commentary@.map_values(|c: Commentary| c@),
        }
    }
}

#[derive(Debug)]
pub struct Text {
    pub text: Vec<Line>,
}

impl View for Text {
    type V = Seq<LineModel>;

    open spec fn view(&self) -> Seq<LineModel> {
        self.text@.map_values(|l: Line| l@)
    }
}

/// `position`, moved back to the last byte of a text of `len` bytes when it
/// lies beyond it (and `0` for an empty text).
pub open spec fn clamp_position(len: usize, position: usize) -> usize {
    let last = if len == 0 { 0 } else { (len - 1) as usize };
    if last < position { last } else { position }
}

/// The key under which the commentary of `position` is kept in a line.
pub open spec fn commentary_key(line: LineModel, position: usize) -> usize {
    clamp_position(byte_len(line.text), position)
}

/// `BTreeMap::get_mut`: a reference to the value under `key` if there is one;
/// what is written through it becomes the map's value under `key`.
#[verifier::external_body]
fn commentary_get_mut(m: &mut BTreeMap<usize, Commentary>, key: usize) -> (r: Option<
    &mut Commentary,
>)
    ensures
        old(m)@.contains_key(key) ==> r.is_some() && *r.unwrap() == old(m)@[key] && final(m)@
            == old(m)@.insert(key, *final(r.unwrap())),
        !old(m)@.contains_key(key) ==> r.is_none() && final(m)@ == old(m)@,
{
    m.get_mut(&key)
}

impl Line {
    pub fn position_or_text_len(&self, position: usize) -> (r: usize)
        ensures
            r == commentary_key(self@, position),
    {
        let len = self.text.as_str().len();
        (if len == 0 { 0 } else { len - 1 }).min(position)
    }

    pub fn get_commentary(&self, position: usize) -> (r: Option<&Commentary>)
        ensures
            match r {
                Some(c) => self.commentary@.contains_key(commentary_key(self@, position))
                    && self.commentary@[commentary_key(self@, position)] == *c,
                None => !self.commentary@.contains_key(commentary_key(self@, position)),
            },
    {
        let key = self.position_or_text_len(position);
        self.commentary.get(&key)
    }

    pub fn get_commentary_mut(&mut self, position: usize) -> (r: Option<&mut Commentary>)
        ensures
            final(self).text == old(self).text,
            final(self).len == old(self).len,
            final(self).words == old(self).words,
            old(self).commentary@.contains_key(commentary_key(old(self)@, position)) ==> r.is_some()
                && *r.unwrap() == old(self).commentary@[commentary_key(old(self)@, position)]
                && final(self).commentary@ == old(self).commentary@.insert(
                commentary_key(old(self)@, position),
                *final(r.unwrap()),
            ),
            !old(self).commentary@.contains_key(commentary_key(old(self)@, position)) ==> r.is_none()
                && final(self).commentary@ == old(self).commentary@,
    {
        let key = self.position_or_text_len(position);
        commentary_get_mut(&mut self.commentary, key)
    }

    pub fn get_commentary_unchecked(&self, position: usize) -> (r: &Commentary)
        requires
            self.commentary@.contains_key(commentary_key(self@, position)),
        ensures
            *r == self.commentary@[commentary_key(self@, position)],
    {
        let key = self.position_or_text_len(position);
        self.commentary.get(&key).unwrap()
    }
}

pub trait CharLength {
    fn char_len(&self) -> usize;
}

impl CharLength for &str {
    fn char_len(&self) -> (r: usize)
        ensures
            r == self@.len(),
    {
        self.unicode_len()
    }
}

impl CharLength for &Line {
    fn char_len(&self) -> (r: usize)
        ensures
            r == self.len,
    {
        self.len
    }
}

impl CharLength for Line {
    fn char_len(&self) -> (r: usize)
        ensures
            r == self.len,
    {
        self.len
    }
}

} // verus!
