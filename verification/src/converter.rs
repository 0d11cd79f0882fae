//! Splitting a text into lines and each line into words.
//!
//! A line is cut into words at the characters that are neither alphabetic nor
//! one of the quotes `“`, `"`, `'`, `’`. A word never starts with an opening
//! quote (`“` or `"`), and one opening quote that ends it is left out of it.
//! Word ranges count characters (not bytes) from the start of the line.
use crate::structure::{
    insert_word, new_word_map, word_entries, Line, LineModel, Text, Word, WordModel,
};
use rangemap::RangeMap;
use std::collections::BTreeMap;
use vstd::prelude::*;

verus! {

/// What `char::is_alphabetic` answers for a character (the Unicode
/// `Alphabetic` property).
pub uninterp spec fn char_alphabetic(c: char) -> bool;

/// `char::is_alphabetic`.
#[verifier::external_body]
fn is_alphabetic(c: char) -> (r: bool)
    ensures
        r == char_alphabetic(c),
{
    c.is_alphabetic()
}

/// `String::push`: the character is appended.
#[verifier::external_body]
pub(crate) fn push_char(s: &mut String, c: char)
    ensures
        final(s)@ == old(s)@.push(c),
{
    s.push(c);
}

pub open spec fn is_open_quote(c: char) -> bool {
    c == '“' || c == '"'
}

/// Characters that belong to words: alphabetic ones and quotes.
pub open spec fn is_word_char(c: char, alphabetic: bool) -> bool {
    alphabetic || c == '“' || c == '"' || c == '\'' || c == '’'
}

/// A word being read: it started at `start`, its last character so far is at
/// `stop`, the one before that (if any) at `last_stop`.
pub struct WordScan {
    pub start: usize,
    pub stop: usize,
    pub last_stop: Option<usize>,
    pub chars: Seq<char>,
}

pub open spec fn begin_word(i: usize, c: char) -> Option<WordScan> {
    if is_open_quote(c) {
        None
    } else {
        Some(WordScan { start: i, stop: i, last_stop: None, chars: seq![c] })
    }
}

/// The entry a finished word gives: a closing opening-quote is dropped.
pub open spec fn finish_word(w: WordScan) -> (usize, usize, WordModel) {
    if w.chars.len() > 0 && is_open_quote(w.chars.last()) {
        (w.start, (w.last_stop.unwrap() + 1) as usize, (w.chars.drop_last(), None, None))
    } else {
        (w.start, (w.stop + 1) as usize, (w.chars, None, None))
    }
}

/// The words finished among the first `n` characters, and the word still
/// being read after them.
pub open spec fn scan_words(chars: Seq<char>, alphabetic: Seq<bool>, n: nat) -> (
    Seq<(usize, usize, WordModel)>,
    Option<WordScan>,
)
    decreases n,
{
    if n == 0 {
        (Seq::empty(), None)
    } else {
        let (done, cur) = scan_words(chars, alphabetic, (n - 1) as nat);
        let i = (n - 1) as usize;
        let c = chars[n - 1];
        if !is_word_char(c, alphabetic[n - 1]) {
            (done, cur)
        } else {
            match cur {
                Some(w) => if w.stop + 1 == i {
                    (
                        done,
                        Some(
                            WordScan {
                                start: w.start,
                                stop: i,
                                last_stop: Some(w.stop),
                                chars: w.chars.push(c),
                            },
                        ),
                    )
                } else {
                    (done.push(finish_word(w)), begin_word(i, c))
                },
                None => (done, begin_word(i, c)),
            }
        }
    }
}

/// The words of a line, in order: `(start, end, word)` for the character
/// range `start..end`. `alphabetic[i]` tells whether `chars[i]` is alphabetic.
pub open spec fn line_words(chars: Seq<char>, alphabetic: Seq<bool>) -> Seq<
    (usize, usize, WordModel),
> {
    let (done, cur) = scan_words(chars, alphabetic, chars.len());
    match cur {
        Some(w) => done.push(finish_word(w)),
        None => done,
    }
}

pub open spec fn alphabetic_flags(chars: Seq<char>) -> Seq<bool> {
    chars.map_values(|c: char| char_alphabetic(c))
}

/// The model of the line that `parse` makes of `text`.
pub open spec fn parsed_line(text: Seq<char>) -> LineModel {
    LineModel {
        len: text.len() as usize,
        text: text,
        words: line_words(text, alphabetic_flags(text)),
        commentary: Map::empty(),
    }
}

/// `s` cut at each `'\n'`, as `str::split('\n')` cuts it.
pub open spec fn split_lines(s: Seq<char>) -> Seq<Seq<char>>
    decreases s.len(),
{
    if s.len() == 0 {
        seq![Seq::<char>::empty()]
    } else {
        let prev = split_lines(s.drop_last());
        if s.last() == '\n' {
            prev.push(Seq::<char>::empty())
        } else {
            prev.update(prev.len() - 1, prev.last().push(s.last()))
        }
    }
}

/// `parts` joined with `sep` between each two of them.
pub open spec fn join_with<T>(parts: Seq<Seq<T>>, sep: Seq<T>) -> Seq<T>
    decreases parts.len(),
{
    if parts.len() == 0 {
        Seq::empty()
    } else if parts.len() == 1 {
        parts[0]
    } else {
        join_with(parts.drop_last(), sep) + sep + parts.last()
    }
}

/// Well-formed word entries: non-empty ranges in increasing order with at
/// least one position between two of them, inside a line of `len`
/// characters, each holding the text of its range.
pub open spec fn words_wf(words: Seq<(usize, usize, WordModel)>, chars: Seq<char>) -> bool {
    &&& forall|k: int| 0 <= k < words.len() ==> #[trigger] words[k].0 < words[k].1
    &&& forall|k: int| 0 <= k < words.len() ==> #[trigger] words[k].1 <= chars.len()
    &&& forall|j: int, k: int| 0 <= j < k < words.len() ==> #[trigger] words[j].1 < #[trigger] words[k].0
    &&& forall|k: int|
        0 <= k < words.len() ==> #[trigger] words[k].2 == (
            chars.subrange(words[k].0 as int, words[k].1 as int),
            None::<Seq<char>>,
            None::<Seq<char>>,
        )
    &&& forall|k: int| 0 <= k < words.len() ==> !is_open_quote(#[trigger] chars[words[k].0 as int])
}

/// What holds of the scan after `n` characters.
pub open spec fn scan_inv(
    chars: Seq<char>,
    n: nat,
    done: Seq<(usize, usize, WordModel)>,
    cur: Option<WordScan>,
) -> bool {
    &&& words_wf(done, chars)
    &&& forall|k: int| 0 <= k < done.len() ==> #[trigger] done[k].1 < n
    &&& match cur {
        Some(w) => {
            &&& w.start <= w.stop < n
            &&& w.chars == chars.subrange(w.start as int, w.stop + 1)
            &&& !is_open_quote(w.chars[0])
            &&& (w.last_stop is None <==> w.stop == w.start)
            &&& (w.last_stop matches Some(l) ==> l + 1 == w.stop)
            &&& forall|k: int| 0 <= k < done.len() ==> #[trigger] done[k].1 < w.start
        },
        None => true,
    }
}

proof fn lemma_finish_word(chars: Seq<char>, n: nat, w: WordScan)
    requires
        chars.len() <= usize::MAX,
        w.start <= w.stop < n <= chars.len(),
        w.chars == chars.subrange(w.start as int, w.stop + 1),
        !is_open_quote(w.chars[0]),
        w.last_stop is None <==> w.stop == w.start,
        w.last_stop matches Some(l) ==> l + 1 == w.stop,
    ensures
        ({
            let e = finish_word(w);
            &&& e.0 == w.start
            &&& e.0 < e.1 <= w.stop + 1
            &&& e.2 == (
                chars.subrange(e.0 as int, e.1 as int),
                None::<Seq<char>>,
                None::<Seq<char>>,
            )
        }),
{
    if is_open_quote(w.chars.last()) {
        assert(w.chars.len() > 1);
        assert(w.chars.drop_last() =~= chars.subrange(w.start as int, w.stop as int));
    }
}

proof fn lemma_scan_inv(chars: Seq<char>, alphabetic: Seq<bool>, n: nat)
    requires
        chars.len() <= usize::MAX,
        n <= chars.len(),
        chars.len() == alphabetic.len(),
    ensures
        scan_inv(chars, n, scan_words(chars, alphabetic, n).0, scan_words(chars, alphabetic, n).1),
    decreases n,
{
    if n > 0 {
        lemma_scan_inv(chars, alphabetic, (n - 1) as nat);
        let (done, cur) = scan_words(chars, alphabetic, (n - 1) as nat);
        let i = (n - 1) as usize;
        let c = chars[n - 1];
        if is_word_char(c, alphabetic[n - 1]) {
            match cur {
                Some(w) => {
                    if w.stop + 1 == i {
                        assert(w.chars.push(c) =~= chars.subrange(w.start as int, i + 1));
                    } else {
                        lemma_finish_word(chars, n, w);
                        let done2 = done.push(finish_word(w));
                        assert forall|j: int, k: int|
                            0 <= j < k < done2.len() implies #[trigger] done2[j].1
                            < #[trigger] done2[k].0 by {
                            if k == done.len() {
                                assert(done[j].1 < w.start);
                            }
                        }
                        if !is_open_quote(c) {
                            assert(seq![c] =~= chars.subrange(i as int, i + 1));
                        }
                    }
                },
                None => {
                    if !is_open_quote(c) {
                        assert(seq![c] =~= chars.subrange(i as int, i + 1));
                    }
                },
            }
        }
    }
}

pub open spec fn wc(chars: Seq<char>, alphabetic: Seq<bool>, i: int) -> bool {
    is_word_char(chars[i], alphabetic[i])
}

/// A word may start at `s`: at the line's start, after a character that is
/// not a word character, or after an opening quote.
pub open spec fn word_start_ok(chars: Seq<char>, alphabetic: Seq<bool>, s: int) -> bool {
    s == 0 || !wc(chars, alphabetic, s - 1) || is_open_quote(chars[s - 1])
}

/// A word may end at `e`: where its run of word characters ends (and then
/// not with an opening quote), or before a single opening quote that ends
/// the run.
pub open spec fn word_end_ok(chars: Seq<char>, alphabetic: Seq<bool>, e: int) -> bool {
    ||| (e == chars.len() || !wc(chars, alphabetic, e)) && !is_open_quote(chars[e - 1])
    ||| is_open_quote(chars[e]) && e < chars.len() && (e + 1 == chars.len() || !wc(
        chars,
        alphabetic,
        e + 1,
    ))
}

pub open spec fn covered(words: Seq<(usize, usize, WordModel)>, i: int) -> bool {
    exists|k: int| 0 <= k < words.len() && #[trigger] words[k].0 <= i < words[k].1
}

/// What the words of a line are: runs of word characters, each without its
/// leading opening quotes and without one opening quote that ends it; every
/// word character other than an opening quote is in a word.
pub open spec fn words_exact(
    words: Seq<(usize, usize, WordModel)>,
    chars: Seq<char>,
    alphabetic: Seq<bool>,
) -> bool {
    &&& forall|k: int, i: int|
        #![trigger words[k], wc(chars, alphabetic, i)]
        0 <= k < words.len() && words[k].0 <= i < words[k].1 ==> wc(chars, alphabetic, i)
    &&& forall|k: int| 0 <= k < words.len() ==> word_start_ok(chars, alphabetic, #[trigger] words[k].0 as int)
    &&& forall|k: int| 0 <= k < words.len() ==> word_end_ok(chars, alphabetic, #[trigger] words[k].1 as int)
    &&& forall|i: int|
        0 <= i < chars.len() && #[trigger] wc(chars, alphabetic, i) && !is_open_quote(chars[i])
            ==> covered(words, i)
}

pub open spec fn scan_cover(
    chars: Seq<char>,
    alphabetic: Seq<bool>,
    n: nat,
    done: Seq<(usize, usize, WordModel)>,
    cur: Option<WordScan>,
) -> bool {
    &&& forall|k: int, i: int|
        #![trigger done[k], wc(chars, alphabetic, i)]
        0 <= k < done.len() && done[k].0 <= i < done[k].1 ==> wc(chars, alphabetic, i)
    &&& forall|k: int| 0 <= k < done.len() ==> word_start_ok(chars, alphabetic, #[trigger] done[k].0 as int)
    &&& forall|k: int| 0 <= k < done.len() ==> word_end_ok(chars, alphabetic, #[trigger] done[k].1 as int)
    &&& forall|i: int|
        0 <= i < n && #[trigger] wc(chars, alphabetic, i) && !is_open_quote(chars[i]) ==> covered(
            done,
            i,
        ) || (cur matches Some(w) && w.start <= i <= w.stop)
    &&& match cur {
        Some(w) => {
            &&& forall|i: int| w.start <= i <= w.stop ==> #[trigger] wc(chars, alphabetic, i)
            &&& word_start_ok(chars, alphabetic, w.start as int)
            &&& forall|j: int| w.stop < j < n ==> !#[trigger] wc(chars, alphabetic, j)
        },
        None => n == 0 || !wc(chars, alphabetic, n - 1) || is_open_quote(chars[n - 1]),
    }
}

proof fn lemma_finish_cover(
    chars: Seq<char>,
    alphabetic: Seq<bool>,
    n: nat,
    done: Seq<(usize, usize, WordModel)>,
    w: WordScan,
)
    requires
        chars.len() <= usize::MAX,
        chars.len() == alphabetic.len(),
        n <= chars.len(),
        scan_inv(chars, n, done, Some(w)),
        scan_cover(chars, alphabetic, n, done, Some(w)),
        n == chars.len() || (n < chars.len() && wc(chars, alphabetic, n as int) && w.stop + 1 < n),
    ensures
        ({
            let d2 = done.push(finish_word(w));
            &&& forall|k: int, i: int|
                #![trigger d2[k], wc(chars, alphabetic, i)]
                0 <= k < d2.len() && d2[k].0 <= i < d2[k].1 ==> wc(chars, alphabetic, i)
            &&& forall|k: int| 0 <= k < d2.len() ==> word_start_ok(chars, alphabetic, #[trigger] d2[k].0 as int)
            &&& forall|k: int| 0 <= k < d2.len() ==> word_end_ok(chars, alphabetic, #[trigger] d2[k].1 as int)
            &&& forall|i: int|
                0 <= i < n && #[trigger] wc(chars, alphabetic, i) && !is_open_quote(chars[i]) ==> covered(d2, i)
        }),
{
    lemma_finish_word(chars, n, w);
    let e = finish_word(w);
    let d2 = done.push(e);
    assert forall|i: int|
        0 <= i < n && #[trigger] wc(chars, alphabetic, i) && !is_open_quote(chars[i]) implies covered(d2, i) by {
        if covered(done, i) {
            let k = choose|k: int| 0 <= k < done.len() && #[trigger] done[k].0 <= i < done[k].1;
            assert(d2[k] == done[k]);
        } else {
            assert(w.start <= i <= w.stop);
            if i == w.stop {
                assert(chars[i] == w.chars.last());
            }
            assert(d2[done.len() as int] == e);
        }
    }
    assert forall|k: int| 0 <= k < d2.len() implies word_end_ok(chars, alphabetic, #[trigger] d2[k].1 as int) by {
        if k == done.len() {
            assert(w.chars.last() == chars[w.stop as int]);
            if is_open_quote(w.chars.last()) {
                assert(w.chars.len() > 1);
                if w.stop + 1 < chars.len() {
                    assert(!wc(chars, alphabetic, w.stop + 1));
                }
            } else {
                if w.stop + 1 < chars.len() {
                    assert(!wc(chars, alphabetic, w.stop + 1));
                }
            }
        }
    }
}

proof fn lemma_scan_cover(chars: Seq<char>, alphabetic: Seq<bool>, n: nat)
    requires
        chars.len() <= usize::MAX,
        n <= chars.len(),
        chars.len() == alphabetic.len(),
    ensures
        scan_cover(
            chars,
            alphabetic,
            n,
            scan_words(chars, alphabetic, n).0,
            scan_words(chars, alphabetic, n).1,
        ),
    decreases n,
{
    if n > 0 {
        lemma_scan_cover(chars, alphabetic, (n - 1) as nat);
        lemma_scan_inv(chars, alphabetic, (n - 1) as nat);
        let (done, cur) = scan_words(chars, alphabetic, (n - 1) as nat);
        let i = (n - 1) as int;
        let c = chars[i];
        if is_word_char(c, alphabetic[i]) {
            match cur {
                Some(w) => {
                    if w.stop + 1 == i {
                    } else {
                        lemma_finish_cover(chars, alphabetic, (n - 1) as nat, done, w);
                    }
                },
                None => {},
            }
        }
    }
}

/// The words of a line are exactly its runs of word characters, each without
/// leading opening quotes and without one opening quote that ends it.
pub proof fn lemma_line_words_exact(chars: Seq<char>, alphabetic: Seq<bool>)
    requires
        chars.len() <= usize::MAX,
        chars.len() == alphabetic.len(),
    ensures
        words_exact(line_words(chars, alphabetic), chars, alphabetic),
{
    lemma_scan_cover(chars, alphabetic, chars.len());
    lemma_scan_inv(chars, alphabetic, chars.len());
    let (done, cur) = scan_words(chars, alphabetic, chars.len());
    if let Some(w) = cur {
        lemma_finish_cover(chars, alphabetic, chars.len(), done, w);
    }
}

/// The words of a line are well formed: non-empty, in increasing order and
/// apart, inside the line, each holding the text of its range and none
/// starting with an opening quote.
pub proof fn lemma_line_words_wf(chars: Seq<char>, alphabetic: Seq<bool>)
    requires
        chars.len() <= usize::MAX,
        chars.len() == alphabetic.len(),
    ensures
        words_wf(line_words(chars, alphabetic), chars),
{
    lemma_scan_inv(chars, alphabetic, chars.len());
    let (done, cur) = scan_words(chars, alphabetic, chars.len());
    if let Some(w) = cur {
        lemma_finish_word(chars, chars.len(), w);
        let all = done.push(finish_word(w));
        assert forall|j: int, k: int| 0 <= j < k < all.len() implies #[trigger] all[j].1
            < #[trigger] all[k].0 by {
            if k == done.len() {
                assert(done[j].1 < w.start);
            }
        }
    }
}

pub fn chars_of(s: &str) -> (v: Vec<char>)
    ensures
        v@ == s@,
{
    let mut v: Vec<char> = Vec::new();
    for c in it: s.chars()
        invariant
            v@ == it.seq().take(it.index()),
            it.seq() == s@,
    {
        v.push(c);
    }
    v
}

pub(crate) fn string_of(chars: &Vec<char>) -> (s: String)
    ensures
        s@ == chars@,
{
    let mut s = String::new();
    for i in 0..chars.len()
        invariant
            s@ == chars@.take(i as int),
    {
        push_char(&mut s, chars[i]);
        assert(chars@.take(i + 1) =~= chars@.take(i as int).push(chars@[i as int]));
    }
    assert(chars@.take(chars.len() as int) =~= chars@);
    s
}

fn is_open_quote_char(c: char) -> (r: bool)
    ensures
        r == is_open_quote(c),
{
    c == '“' || c == '"'
}

fn is_word_char_exec(c: char, alphabetic: bool) -> (r: bool)
    ensures
        r == is_word_char(c, alphabetic),
{
    alphabetic || c == '“' || c == '"' || c == '\'' || c == '’'
}

spec fn scan_model(cur: Option<(usize, usize, Option<usize>, Vec<char>)>) -> Option<WordScan> {
    match cur {
        Some((start, stop, last_stop, chars)) => Some(
            WordScan { start, stop, last_stop, chars: chars@ },
        ),
        None => None,
    }
}

fn begin_word_exec(i: usize, c: char) -> (r: Option<(usize, usize, Option<usize>, Vec<char>)>)
    ensures
        scan_model(r) == begin_word(i, c),
{
    if is_open_quote_char(c) {
        None
    } else {
        let v = vec![c];
        assert(v@ =~= seq![c]);
        Some((i, i, None, v))
    }
}

/// Adds the finished word to the map.
fn finish_word_exec(
    words: &mut RangeMap<usize, Word>,
    start: usize,
    stop: usize,
    last_stop: Option<usize>,
    chars: Vec<char>,
    Ghost(line): Ghost<Seq<char>>,
    Ghost(n): Ghost<nat>,
)
    requires
        line.len() <= usize::MAX,
        start <= stop < n <= line.len(),
        chars@ == line.subrange(start as int, stop + 1),
        !is_open_quote(chars@[0]),
        last_stop is None <==> stop == start,
        last_stop matches Some(l) ==> l + 1 == stop,
        forall|k: int|
            0 <= k < word_entries(*old(words)).len() ==> #[trigger] word_entries(
                *old(words),
            )[k].1 < start,
    ensures
        word_entries(*final(words)) == word_entries(*old(words)).push(
            finish_word(WordScan { start, stop, last_stop, chars: chars@ }),
        ),
{
    proof {
        lemma_finish_word(line, n, WordScan { start, stop, last_stop, chars: chars@ });
    }
    let mut chars = chars;
    let last = chars[chars.len() - 1];
    let end = if is_open_quote_char(last) {
        chars.pop();
        last_stop.unwrap() + 1
    } else {
        stop + 1
    };
    let word = Word { word: string_of(&chars), prounouciation: None, translation: None };
    insert_word(words, start, end, word);
}

/// The words of a line whose characters are `chars`, where `alphabetic[i]`
/// tells whether `chars[i]` is alphabetic.
pub fn line_words_map(chars: &Vec<char>, alphabetic: &Vec<bool>) -> (m: RangeMap<usize, Word>)
    requires
        chars.len() == alphabetic.len(),
    ensures
        word_entries(m) == line_words(chars@, alphabetic@),
{
    let mut words = new_word_map();
    let mut cur: Option<(usize, usize, Option<usize>, Vec<char>)> = None;
    for i in 0..chars.len()
        invariant
            chars.len() == alphabetic.len(),
            word_entries(words) == scan_words(chars@, alphabetic@, i as nat).0,
            scan_model(cur) == scan_words(chars@, alphabetic@, i as nat).1,
    {
        proof {
            lemma_scan_inv(chars@, alphabetic@, i as nat);
        }
        let c = chars[i];
        if is_word_char_exec(c, alphabetic[i]) {
            match cur {
                Some((start, stop, last_stop, mut wchars)) => {
                    if stop + 1 == i {
                        wchars.push(c);
                        cur = Some((start, i, Some(stop), wchars));
                    } else {
                        finish_word_exec(
                            &mut words,
                            start,
                            stop,
                            last_stop,
                            wchars,
                            Ghost(chars@),
                            Ghost((i + 1) as nat),
                        );
                        cur = begin_word_exec(i, c);
                    }
                },
                None => {
                    cur = begin_word_exec(i, c);
                },
            }
        }
    }
    proof {
        lemma_scan_inv(chars@, alphabetic@, chars.len() as nat);
    }
    if let Some((start, stop, last_stop, wchars)) = cur {
        finish_word_exec(
            &mut words,
            start,
            stop,
            last_stop,
            wchars,
            Ghost(chars@),
            Ghost(chars.len() as nat),
        );
    }
    words
}

fn alphabetic_of(chars: &Vec<char>) -> (v: Vec<bool>)
    ensures
        v@ == alphabetic_flags(chars@),
{
    let mut v: Vec<bool> = Vec::new();
    for i in 0..chars.len()
        invariant
            v@ == alphabetic_flags(chars@).take(i as int),
    {
        v.push(is_alphabetic(chars[i]));
        assert(alphabetic_flags(chars@).take(i + 1) =~= alphabetic_flags(chars@).take(
            i as int,
        ).push(char_alphabetic(chars@[i as int])));
    }
    assert(alphabetic_flags(chars@).take(chars.len() as int) =~= alphabetic_flags(chars@));
    v
}

/// The line that `parse` makes of `text`: its words found, no commentary.
pub fn parse_line(text: String) -> (line: Line)
    ensures
        line@ == parsed_line(text@),
{
    let chars = chars_of(text.as_str());
    let alphabetic = alphabetic_of(&chars);
    let words = line_words_map(&chars, &alphabetic);
    let len = chars.len();
    let line = Line { len, text, words, commentary: BTreeMap::new() };
    assert(line@.commentary =~= Map::<usize, crate::structure::CommentaryModel>::empty());
    line
}

/// Splitting always gives at least one line.
pub proof fn lemma_split_lines_len(s: Seq<char>)
    ensures
        split_lines(s).len() >= 1,
    decreases s.len(),
{
    if s.len() > 0 {
        lemma_split_lines_len(s.drop_last());
    }
}

/// Splitting at `'\n'` and joining the parts with `'\n'` gives back `s`.
pub proof fn lemma_split_join(s: Seq<char>)
    ensures
        join_with(split_lines(s), seq!['\n']) == s,
    decreases s.len(),
{
    if s.len() > 0 {
        let p = split_lines(s.drop_last());
        lemma_split_lines_len(s.drop_last());
        lemma_split_join(s.drop_last());
        let q = split_lines(s);
        if s.last() == '\n' {
            assert(q.drop_last() =~= p);
        } else if p.len() == 1 {
            assert(q.len() == 1);
        } else {
            assert(q.drop_last() =~= p.drop_last());
        }
        assert(s =~= s.drop_last().push(s.last()));
    }
}

/// No line that splitting makes holds a `'\n'`: together with
/// `lemma_split_join`, the lines are exactly the pieces between newlines,
/// one more than there are newlines.
pub proof fn lemma_split_lines_no_newline(s: Seq<char>)
    ensures
        forall|i: int| 0 <= i < split_lines(s).len() ==> !(#[trigger] split_lines(s)[i]).contains('\n'),
        split_lines(s).len() == s.filter(|c: char| c == '\n').len() + 1,
    decreases s.len(),
{
    if s.len() > 0 {
        let p = split_lines(s.drop_last());
        lemma_split_lines_len(s.drop_last());
        lemma_split_lines_no_newline(s.drop_last());
        let q = split_lines(s);
        assert(s =~= s.drop_last().push(s.last()));
        s.drop_last().lemma_filter_push(s.last(), |c: char| c == '\n');
        if s.last() != '\n' {
            assert forall|i: int| 0 <= i < q.len() implies !(#[trigger] q[i]).contains('\n') by {
                if i == q.len() - 1 {
                    assert(!p[i].contains('\n'));
                    if q[i].contains('\n') {
                        let j = choose|j: int| 0 <= j < q[i].len() && q[i][j] == '\n';
                        assert(q[i] == p[i].push(s.last()));
                        if j < p[i].len() {
                            assert(p[i][j] == '\n');
                        }
                    }
                } else {
                    assert(q[i] == p[i]);
                }
            }
        } else {
            assert forall|i: int| 0 <= i < q.len() implies !(#[trigger] q[i]).contains('\n') by {
                if i < p.len() {
                    assert(q[i] == p[i]);
                }
            }
        }
    }
}

/// The lines of the text that `parse` makes: each holds no `'\n'`, they
/// join back to the text with `'\n'` between them, and there is one more
/// of them than the text has newlines.
pub proof fn lemma_parse_lines(s: Seq<char>)
    ensures
        ({
            let lines = split_lines(s).map_values(|l: Seq<char>| parsed_line(l)).map_values(
                |m: LineModel| m.text,
            );
            &&& forall|i: int| 0 <= i < lines.len() ==> !(#[trigger] lines[i]).contains('\n')
            &&& join_with(lines, seq!['\n']) == s
            &&& lines.len() == s.filter(|c: char| c == '\n').len() + 1
        }),
{
    lemma_split_lines_no_newline(s);
    lemma_parse_keeps_text(s);
    let lines = split_lines(s).map_values(|l: Seq<char>| parsed_line(l)).map_values(
        |m: LineModel| m.text,
    );
    assert(lines =~= split_lines(s));
}

/// The texts of the lines that `parse` makes, joined with `'\n'`, give back
/// the parsed text.
pub proof fn lemma_parse_keeps_text(s: Seq<char>)
    ensures
        join_with(
            split_lines(s).map_values(|l: Seq<char>| parsed_line(l)).map_values(
                |m: LineModel| m.text,
            ),
            seq!['\n'],
        ) == s,
{
    lemma_split_join(s);
    assert(split_lines(s).map_values(|l: Seq<char>| parsed_line(l)).map_values(
        |m: LineModel| m.text,
    ) =~= split_lines(s));
}

/// The words of every line that `parse` makes are well formed, and they are
/// exactly the line's runs of word characters (without leading opening
/// quotes and one closing opening quote).
pub proof fn lemma_parsed_words(text: Seq<char>)
    requires
        text.len() <= usize::MAX,
    ensures
        words_wf(parsed_line(text).words, text),
        words_exact(parsed_line(text).words, text, alphabetic_flags(text)),
{
    lemma_line_words_wf(text, alphabetic_flags(text));
    lemma_line_words_exact(text, alphabetic_flags(text));
}

/// Splits `s` into lines at each `'\n'` and the lines into words.
pub fn parse(s: &str) -> (t: Text)
    ensures
        t@ == split_lines(s@).map_values(|l: Seq<char>| parsed_line(l)),
        forall|i: int| 0 <= i < t@.len() ==> !(#[trigger] t@[i]).text.contains('\n'),
{
    let chars = chars_of(s);
    let mut lines: Vec<Line> = Vec::new();
    let mut current = String::new();
    for i in 0..chars.len()
        invariant
            chars@ == s@,
            split_lines(chars@.take(i as int)).len() >= 1,
            lines@.map_values(|l: Line| l@) =~= split_lines(chars@.take(i as int)).drop_last().map_values(
                |l: Seq<char>| parsed_line(l),
            ),
            current@ == split_lines(chars@.take(i as int)).last(),
    {
        proof {
            lemma_split_lines_len(chars@.take(i + 1));
            assert(chars@.take(i + 1).drop_last() =~= chars@.take(i as int));
        }
        let ghost prev = split_lines(chars@.take(i as int));
        let ghost next = split_lines(chars@.take(i + 1));
        let c = chars[i];
        if c == '\n' {
            assert(next == prev.push(Seq::<char>::empty()));
            let mut done = String::new();
            std::mem::swap(&mut done, &mut current);
            let ghost old_lines = lines@;
            let line = parse_line(done);
            lines.push(line);
            assert(next.drop_last() =~= prev);
            assert(lines@ == old_lines.push(line));
            assert(lines@.map_values(|l: Line| l@) =~= old_lines.map_values(|l: Line| l@).push(
                parsed_line(prev.last()),
            ));
            assert(prev =~= prev.drop_last().push(prev.last()));
        } else {
            assert(next == prev.update(prev.len() - 1, prev.last().push(c)));
            push_char(&mut current, c);
            assert(next.drop_last() =~= prev.drop_last());
        }
    }
    assert(chars@.take(chars.len() as int) =~= chars@);
    let ghost old_lines = lines@;
    let ghost all = split_lines(s@);
    let line = parse_line(current);
    lines.push(line);
    proof {
        lemma_split_lines_len(s@);
        assert(lines@.map_values(|l: Line| l@) =~= old_lines.map_values(|l: Line| l@).push(
            parsed_line(all.last()),
        ));
        assert(all =~= all.drop_last().push(all.last()));
    }
    let t = Text { text: lines };
    assert(t@ =~= split_lines(s@).map_values(|l: Seq<char>| parsed_line(l)));
    proof {
        lemma_split_lines_no_newline(s@);
        assert forall|i: int| 0 <= i < t@.len() implies !(#[trigger] t@[i]).text.contains('\n') by {
            assert(t@[i].text == split_lines(s@)[i]);
        }
    }
    t
}

} // verus!
