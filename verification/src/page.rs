//! The layout of a text as a page: each line cut at its commentaries, each
//! piece shown beside its translation, followed by its description. The
//! program turns the layout into HTML.
use crate::converter::{chars_of, string_of};
use crate::render::{increasing, keys_in_order, lemma_sorted_keys, sorted_keys};
use crate::structure::{opt_string_view, strings_view, CommentaryModel, Line, LineModel, Text};
use vstd::prelude::*;

verus! {

/// A piece of a page line.
#[derive(Debug, Clone, PartialEq, Eq)]
pub enum HtmlPart {
    /// A piece of the line's text beside its translation (or a blank).
    Sentence { translation: Option<String>, text: String },
    /// A description: its lines, each after a line break.
    Description(Vec<String>),
    /// A line break that clears both columns.
    Break,
}

pub enum PartModel {
    Sentence { translation: Option<Seq<char>>, text: Seq<char> },
    Description(Seq<Seq<char>>),
    Break,
}

impl View for HtmlPart {
    type V = PartModel;

    open spec fn view(&self) -> PartModel {
        match self {
            HtmlPart::Sentence { translation, text } => PartModel::Sentence {
                translation: opt_string_view(*translation),
                text: text@,
            },
            HtmlPart::Description(d) => PartModel::Description(strings_view(*d)),
            HtmlPart::Break => PartModel::Break,
        }
    }
}

/// A page: its title and, for each line of the text, the parts it shows.
#[derive(Debug, Clone)]
pub struct HtmlPage {
    pub title: String,
    pub lines: Vec<Vec<HtmlPart>>,
}

pub open spec fn parts_view(v: Vec<HtmlPart>) -> Seq<PartModel> {
    v@.map_values(|p: HtmlPart| p@)
}

/// The parts a commentary gives: the piece of text before it beside its
/// translation, its description if it has one, and a line break.
pub open spec fn commentary_parts(c: CommentaryModel, piece: Seq<char>) -> Seq<PartModel> {
    seq![PartModel::Sentence { translation: c.translation, text: piece }] + match c.description {
        Some(d) => seq![PartModel::Description(d)],
        None => Seq::<PartModel>::empty(),
    } + seq![PartModel::Break]
}

/// The parts of the first `n` commentaries (in key order) of a line.
pub open spec fn parts_upto(line: LineModel, keys: Seq<usize>, n: nat) -> Seq<PartModel>
    decreases n,
{
    if n == 0 {
        Seq::empty()
    } else {
        let start = if n == 1 {
            0
        } else {
            keys[n - 2] as int
        };
        parts_upto(line, keys, (n - 1) as nat) + commentary_parts(
            line.commentary[keys[n - 1]],
            line.text.subrange(start, keys[n - 1] as int),
        )
    }
}

/// The parts of a line: a piece for each commentary, cut at the
/// commentary's key (a character position), then the rest of the line
/// beside a blank, and a line break.
pub open spec fn line_parts(line: LineModel) -> Seq<PartModel> {
    let keys = sorted_keys(line.commentary.dom());
    let last = if keys.len() == 0 {
        0
    } else {
        keys.last() as int
    };
    parts_upto(line, keys, keys.len()) + seq![
        PartModel::Sentence { translation: None, text: line.text.subrange(last, line.text.len() as int) },
        PartModel::Break,
    ]
}

/// A line can be laid out: every commentary key is a character position
/// inside the line.
pub open spec fn line_fits(line: LineModel) -> bool {
    forall|k: usize| line.commentary.contains_key(k) ==> k < line.text.len()
}

/// The texts of the sentence pieces, one after the other.
pub open spec fn pieces_text(parts: Seq<PartModel>) -> Seq<char>
    decreases parts.len(),
{
    if parts.len() == 0 {
        Seq::empty()
    } else {
        pieces_text(parts.drop_last()) + match parts.last() {
            PartModel::Sentence { text, .. } => text,
            _ => Seq::empty(),
        }
    }
}

proof fn lemma_pieces_text_concat(a: Seq<PartModel>, b: Seq<PartModel>)
    ensures
        pieces_text(a + b) == pieces_text(a) + pieces_text(b),
    decreases b.len(),
{
    if b.len() == 0 {
        assert(a + b =~= a);
        assert(pieces_text(a) + pieces_text(b) =~= pieces_text(a));
    } else {
        lemma_pieces_text_concat(a, b.drop_last());
        assert((a + b).drop_last() =~= a + b.drop_last());
        assert((a + b).last() == b.last());
        assert(pieces_text(a + b) =~= pieces_text(a) + pieces_text(b));
    }
}

proof fn lemma_commentary_pieces(c: CommentaryModel, piece: Seq<char>)
    ensures
        pieces_text(commentary_parts(c, piece)) == piece,
{
    let first = seq![PartModel::Sentence { translation: c.translation, text: piece }];
    let middle = match c.description {
        Some(d) => seq![PartModel::Description(d)],
        None => Seq::<PartModel>::empty(),
    };
    let brk = seq![PartModel::Break];
    lemma_pieces_text_concat(first + middle, brk);
    lemma_pieces_text_concat(first, middle);
    assert(pieces_text(first) =~= piece) by {
        reveal_with_fuel(pieces_text, 2);
        assert(first.drop_last() =~= Seq::<PartModel>::empty());
    }
    assert(pieces_text(middle) =~= Seq::<char>::empty()) by {
        reveal_with_fuel(pieces_text, 2);
        if middle.len() > 0 {
            assert(middle.drop_last() =~= Seq::<PartModel>::empty());
        }
    }
    assert(pieces_text(brk) =~= Seq::<char>::empty()) by {
        reveal_with_fuel(pieces_text, 2);
        assert(brk.drop_last() =~= Seq::<PartModel>::empty());
    }
    assert(piece + Seq::<char>::empty() + Seq::<char>::empty() =~= piece);
}

/// The number of characters of the line's text shown before part `m`.
pub open spec fn offset_before(parts: Seq<PartModel>, m: int) -> nat {
    pieces_text(parts.take(m)).len()
}

proof fn lemma_single_piece(tr: Option<Seq<char>>, piece: Seq<char>)
    ensures
        pieces_text(seq![PartModel::Sentence { translation: tr, text: piece }]) == piece,
{
    reveal_with_fuel(pieces_text, 2);
    let one = seq![PartModel::Sentence { translation: tr, text: piece }];
    assert(one.drop_last() =~= Seq::<PartModel>::empty());
    assert(Seq::<char>::empty() + piece =~= piece);
}

#[verifier::spinoff_prover]
#[verifier::rlimit(60)]
proof fn lemma_parts_upto_descriptions(line: LineModel, keys: Seq<usize>, n: nat)
    requires
        increasing(keys),
        n <= keys.len(),
        forall|i: int| 0 <= i < keys.len() ==> keys[i] < line.text.len(),
    ensures
        pieces_text(parts_upto(line, keys, n)) == line.text.subrange(
            0,
            if n == 0 {
                0
            } else {
                keys[n - 1] as int
            },
        ),
        forall|m: int|
            #![trigger parts_upto(line, keys, n)[m]]
            0 <= m < parts_upto(line, keys, n).len() && parts_upto(line, keys, n)[m] is Description
                ==> exists|j: int|
                0 <= j < n && offset_before(parts_upto(line, keys, n), m) == keys[j]
                    && line.commentary[keys[j]].description == Some(
                    parts_upto(line, keys, n)[m]->Description_0,
                ),
        forall|j: int|
            #![trigger keys[j]]
            0 <= j < n && line.commentary[keys[j]].description is Some ==> exists|m: int|
                0 <= m < parts_upto(line, keys, n).len() && parts_upto(line, keys, n)[m]
                    == PartModel::Description(line.commentary[keys[j]].description.unwrap())
                    && offset_before(parts_upto(line, keys, n), m) == keys[j],
    decreases n,
{
    if n > 0 {
        lemma_parts_upto_descriptions(line, keys, (n - 1) as nat);
        let p = parts_upto(line, keys, (n - 1) as nat);
        let start: int = if n == 1 {
            0
        } else {
            keys[n - 2] as int
        };
        let k = keys[n - 1];
        if n > 1 {
            assert(keys[n - 2] < keys[n - 1]);
        }
        let piece = line.text.subrange(start, k as int);
        let c = line.commentary[k];
        let cp = commentary_parts(c, piece);
        let all = parts_upto(line, keys, n);
        assert(all == p + cp);
        lemma_pieces_text_concat(p, cp);
        lemma_commentary_pieces(c, piece);
        assert(line.text.subrange(0, start) + piece =~= line.text.subrange(0, k as int));
        let first = seq![PartModel::Sentence { translation: c.translation, text: piece }];
        lemma_single_piece(c.translation, piece);
        lemma_pieces_text_concat(p, first);
        assert(all.take(p.len() + 1int) =~= p + first);
        assert forall|m: int|
            #![trigger all[m]]
            0 <= m < all.len() && all[m] is Description implies exists|j: int|
            0 <= j < n && offset_before(all, m) == keys[j] && line.commentary[keys[j]].description
                == Some(all[m]->Description_0) by {
            if m < p.len() {
                assert(all.take(m) =~= p.take(m));
                assert(all[m] == p[m]);
                let j = choose|j: int|
                    0 <= j < n - 1 && offset_before(p, m) == keys[j]
                        && line.commentary[keys[j]].description == Some(p[m]->Description_0);
                assert(0 <= j < n && offset_before(all, m) == keys[j]);
            } else {
                assert(m == p.len() + 1);
                assert(offset_before(all, m) == k);
                assert(0 <= n - 1 < n && offset_before(all, m) == keys[n - 1]);
            }
        }
        assert forall|j: int|
            #![trigger keys[j]]
            0 <= j < n && line.commentary[keys[j]].description is Some implies exists|m: int|
                0 <= m < all.len() && all[m] == PartModel::Description(
                    line.commentary[keys[j]].description.unwrap(),
                ) && offset_before(all, m) == keys[j] by {
            if j < n - 1 {
                let m = choose|m: int|
                    0 <= m < p.len() && p[m] == PartModel::Description(
                        line.commentary[keys[j]].description.unwrap(),
                    ) && offset_before(p, m) == keys[j];
                assert(all.take(m) =~= p.take(m));
                assert(all[m] == p[m]);
            } else {
                let m = p.len() + 1int;
                assert(all[m] == PartModel::Description(c.description.unwrap()));
                assert(offset_before(all, m) == keys[j]);
            }
        }
    }
}

proof fn lemma_parts_upto_pieces(line: LineModel, keys: Seq<usize>, n: nat)
    requires
        increasing(keys),
        n <= keys.len(),
        forall|i: int| 0 <= i < keys.len() ==> keys[i] < line.text.len(),
    ensures
        pieces_text(parts_upto(line, keys, n)) == line.text.subrange(
            0,
            if n == 0 {
                0
            } else {
                keys[n - 1] as int
            },
        ),
    decreases n,
{
    if n > 0 {
        lemma_parts_upto_pieces(line, keys, (n - 1) as nat);
        let p = parts_upto(line, keys, (n - 1) as nat);
        let start: int = if n == 1 {
            0
        } else {
            keys[n - 2] as int
        };
        let k = keys[n - 1];
        if n > 1 {
            assert(keys[n - 2] < keys[n - 1]);
        }
        let piece = line.text.subrange(start, k as int);
        let c = line.commentary[k];
        let cp = commentary_parts(c, piece);
        assert(parts_upto(line, keys, n) == p + cp);
        lemma_pieces_text_concat(p, cp);
        lemma_commentary_pieces(c, piece);
        assert(line.text.subrange(0, start) + piece =~= line.text.subrange(0, k as int));
    } else {
        assert(line.text.subrange(0, 0) =~= Seq::<char>::empty());
    }
}

spec fn sentence_at_key(line: LineModel, keys: Seq<usize>, n: nat, m: int) -> bool {
    let all = parts_upto(line, keys, n);
    0 <= m < all.len() && all[m] is Sentence
}

#[verifier::spinoff_prover]
#[verifier::rlimit(40)]
proof fn lemma_parts_upto_translations_fwd(line: LineModel, keys: Seq<usize>, n: nat)
    requires
        increasing(keys),
        n <= keys.len(),
        forall|i: int| 0 <= i < keys.len() ==> keys[i] < line.text.len(),
    ensures
        forall|m: int|
            #[trigger] sentence_at_key(line, keys, n, m) ==> exists|j: int|
                0 <= j < n && offset_before(parts_upto(line, keys, n), m + 1) == keys[j]
                    && line.commentary[keys[j]].translation == parts_upto(
                    line,
                    keys,
                    n,
                )[m]->Sentence_translation,
    decreases n,
{
    if n > 0 {
        lemma_parts_upto_translations_fwd(line, keys, (n - 1) as nat);
        lemma_parts_upto_pieces(line, keys, (n - 1) as nat);
        let p = parts_upto(line, keys, (n - 1) as nat);
        let start: int = if n == 1 {
            0
        } else {
            keys[n - 2] as int
        };
        let k = keys[n - 1];
        if n > 1 {
            assert(keys[n - 2] < keys[n - 1]);
        }
        let piece = line.text.subrange(start, k as int);
        let c = line.commentary[k];
        let cp = commentary_parts(c, piece);
        let all = parts_upto(line, keys, n);
        assert(all == p + cp);
        assert(line.text.subrange(0, start) + piece =~= line.text.subrange(0, k as int));
        let first = seq![PartModel::Sentence { translation: c.translation, text: piece }];
        lemma_single_piece(c.translation, piece);
        lemma_pieces_text_concat(p, first);
        assert(all.take(p.len() + 1int) =~= p + first);
        assert(offset_before(all, p.len() + 1int) == k);
        let middle = match c.description {
            Some(d) => seq![PartModel::Description(d)],
            None => Seq::<PartModel>::empty(),
        };
        assert(cp == first + middle + seq![PartModel::Break]);
        assert forall|m: int| #[trigger] sentence_at_key(line, keys, n, m) implies exists|j: int|
            0 <= j < n && offset_before(all, m + 1) == keys[j] && line.commentary[keys[j]].translation
                == all[m]->Sentence_translation by {
            if m < p.len() {
                assert(all.take(m + 1) =~= p.take(m + 1));
                assert(all[m] == p[m]);
                assert(sentence_at_key(line, keys, (n - 1) as nat, m));
                let j = choose|j: int|
                    0 <= j < n - 1 && offset_before(p, m + 1) == keys[j]
                        && line.commentary[keys[j]].translation == p[m]->Sentence_translation;
                assert(0 <= j < n && offset_before(all, m + 1) == keys[j]);
            } else {
                assert(all[m] == cp[m - p.len()]);
                if m > p.len() {
                    assert(!(cp[m - p.len()] is Sentence));
                }
                assert(m == p.len());
                assert(0 <= n - 1 < n && offset_before(all, m + 1) == keys[n - 1]);
            }
        }
    }
}

/// Some sentence part of the first `n` commentaries' parts carries the
/// translation of commentary `j` and ends at its key.
spec fn sentence_for_key(line: LineModel, keys: Seq<usize>, n: nat, j: int) -> bool {
    exists|m: int|
        0 <= m < parts_upto(line, keys, n).len() && parts_upto(line, keys, n)[m] is Sentence
            && parts_upto(line, keys, n)[m]->Sentence_translation
            == line.commentary[keys[j]].translation && offset_before(parts_upto(line, keys, n), m + 1)
            == keys[j]
}

#[verifier::spinoff_prover]
#[verifier::rlimit(40)]
proof fn lemma_parts_upto_translations_bwd(line: LineModel, keys: Seq<usize>, n: nat)
    requires
        increasing(keys),
        n <= keys.len(),
        forall|i: int| 0 <= i < keys.len() ==> keys[i] < line.text.len(),
    ensures
        forall|j: int| 0 <= j < n ==> #[trigger] sentence_for_key(line, keys, n, j),
    decreases n,
{
    if n > 0 {
        lemma_parts_upto_translations_bwd(line, keys, (n - 1) as nat);
        lemma_parts_upto_pieces(line, keys, (n - 1) as nat);
        let p = parts_upto(line, keys, (n - 1) as nat);
        let start: int = if n == 1 {
            0
        } else {
            keys[n - 2] as int
        };
        let k = keys[n - 1];
        if n > 1 {
            assert(keys[n - 2] < keys[n - 1]);
        }
        let piece = line.text.subrange(start, k as int);
        let c = line.commentary[k];
        let cp = commentary_parts(c, piece);
        let all = parts_upto(line, keys, n);
        assert(all == p + cp);
        assert(line.text.subrange(0, start) + piece =~= line.text.subrange(0, k as int));
        let first = seq![PartModel::Sentence { translation: c.translation, text: piece }];
        lemma_single_piece(c.translation, piece);
        lemma_pieces_text_concat(p, first);
        assert(all.take(p.len() + 1int) =~= p + first);
        assert(offset_before(all, p.len() + 1int) == k);
        assert forall|j: int| 0 <= j < n implies #[trigger] sentence_for_key(line, keys, n, j) by {
            if j < n - 1 {
                assert(sentence_for_key(line, keys, (n - 1) as nat, j));
                let m = choose|m: int|
                    0 <= m < p.len() && p[m] is Sentence && p[m]->Sentence_translation
                        == line.commentary[keys[j]].translation && offset_before(p, m + 1)
                        == keys[j];
                assert(all.take(m + 1) =~= p.take(m + 1));
                assert(all[m] == p[m]);
                assert(0 <= m < all.len() && all[m] is Sentence && all[m]->Sentence_translation
                    == line.commentary[keys[j]].translation && offset_before(all, m + 1)
                    == keys[j]);
            } else {
                let m = p.len() as int;
                assert(all[m] == first[0]);
                assert(0 <= m < all.len() && all[m] is Sentence && all[m]->Sentence_translation
                    == line.commentary[keys[j]].translation && offset_before(all, m + 1)
                    == keys[j]);
            }
        }
    }
}

/// Each translation on a page line stands beside the piece that ends at
/// its commentary's key: a sentence part with translation `Some(t)` whose
/// pieces (itself included) reach `k` characters belongs to the commentary
/// under key `k`, which has translation `t`; and every commentary shows its
/// translation (or a blank) beside the piece that ends at its key.
#[verifier::spinoff_prover]
#[verifier::rlimit(40)]
pub proof fn lemma_translations_in_place(line: LineModel)
    requires
        line_fits(line),
        line.commentary.dom().finite(),
    ensures
        forall|m: int|
            #![trigger line_parts(line)[m]]
            0 <= m < line_parts(line).len() && line_parts(line)[m] is Sentence
                && line_parts(line)[m]->Sentence_translation is Some ==> exists|k: usize|
                k == offset_before(line_parts(line), m + 1) && line.commentary.contains_key(k)
                    && line.commentary[k].translation == line_parts(line)[m]->Sentence_translation,
        forall|k: usize|
            #![trigger line.commentary[k]]
            line.commentary.contains_key(k) ==> exists|m: int|
                0 <= m < line_parts(line).len() && line_parts(line)[m] is Sentence
                    && line_parts(line)[m]->Sentence_translation == line.commentary[k].translation
                    && offset_before(line_parts(line), m + 1) == k,
{
    let keys = sorted_keys(line.commentary.dom());
    lemma_sorted_keys(line.commentary.dom());
    assert forall|i: int| 0 <= i < keys.len() implies keys[i] < line.text.len() by {
        assert(keys.to_set().contains(keys[i]));
    }
    lemma_parts_upto_translations_fwd(line, keys, keys.len());
    lemma_parts_upto_translations_bwd(line, keys, keys.len());
    let p = parts_upto(line, keys, keys.len());
    let all = line_parts(line);
    let last = if keys.len() == 0 {
        0
    } else {
        keys.last() as int
    };
    let tail = seq![
        PartModel::Sentence { translation: None, text: line.text.subrange(last, line.text.len() as int) },
        PartModel::Break,
    ];
    assert(all == p + tail);
    assert forall|m: int|
        #![trigger all[m]]
        0 <= m < all.len() && all[m] is Sentence && all[m]->Sentence_translation is Some
            implies exists|k: usize|
            k == offset_before(all, m + 1) && line.commentary.contains_key(k)
                && line.commentary[k].translation == all[m]->Sentence_translation by {
        assert(m < p.len());
        assert(all.take(m + 1) =~= p.take(m + 1));
        assert(all[m] == p[m]);
        assert(sentence_at_key(line, keys, keys.len(), m));
        let j = choose|j: int|
            0 <= j < keys.len() && offset_before(p, m + 1) == keys[j]
                && line.commentary[keys[j]].translation == p[m]->Sentence_translation;
        assert(keys.to_set().contains(keys[j]));
    }
    assert forall|k: usize|
        #![trigger line.commentary[k]]
        line.commentary.contains_key(k) implies exists|m: int|
            0 <= m < all.len() && all[m] is Sentence && all[m]->Sentence_translation
                == line.commentary[k].translation && offset_before(all, m + 1) == k by {
        assert(keys.to_set().contains(k));
        let j = choose|j: int| 0 <= j < keys.len() && keys[j] == k;
        assert(keys[j] == k);
        assert(sentence_for_key(line, keys, keys.len(), j));
        let m = choose|m: int|
            0 <= m < p.len() && p[m] is Sentence && p[m]->Sentence_translation
                == line.commentary[keys[j]].translation && offset_before(p, m + 1) == keys[j];
        assert(all.take(m + 1) =~= p.take(m + 1));
        assert(all[m] == p[m]);
    }
}

/// Each description on a page line is the description of the commentary
/// whose piece ends where it stands: a `Description(d)` part after the
/// first `k` characters of the line's text is the description of the
/// commentary under key `k`, lines in order; and every commentary with a
/// description shows it there, once the pieces before it reach its key.
#[verifier::spinoff_prover]
#[verifier::rlimit(40)]
pub proof fn lemma_descriptions_in_place(line: LineModel)
    requires
        line_fits(line),
        line.commentary.dom().finite(),
    ensures
        forall|m: int|
            #![trigger line_parts(line)[m]]
            0 <= m < line_parts(line).len() && line_parts(line)[m] is Description
                ==> exists|k: usize|
                k == offset_before(line_parts(line), m) && line.commentary.contains_key(k)
                    && line.commentary[k].description == Some(line_parts(line)[m]->Description_0),
        forall|k: usize|
            #![trigger line.commentary[k]]
            line.commentary.contains_key(k) && line.commentary[k].description is Some
                ==> exists|m: int|
                0 <= m < line_parts(line).len() && line_parts(line)[m] == PartModel::Description(
                    line.commentary[k].description.unwrap(),
                ) && offset_before(line_parts(line), m) == k,
{
    let keys = sorted_keys(line.commentary.dom());
    lemma_sorted_keys(line.commentary.dom());
    assert forall|i: int| 0 <= i < keys.len() implies keys[i] < line.text.len() by {
        assert(keys.to_set().contains(keys[i]));
    }
    lemma_parts_upto_descriptions(line, keys, keys.len());
    let p = parts_upto(line, keys, keys.len());
    let all = line_parts(line);
    let last = if keys.len() == 0 {
        0
    } else {
        keys.last() as int
    };
    let tail = seq![
        PartModel::Sentence { translation: None, text: line.text.subrange(last, line.text.len() as int) },
        PartModel::Break,
    ];
    assert(all == p + tail);
    assert forall|m: int|
        #![trigger all[m]]
        0 <= m < all.len() && all[m] is Description implies exists|k: usize|
            k == offset_before(all, m) && line.commentary.contains_key(k)
                && line.commentary[k].description == Some(all[m]->Description_0) by {
        assert(m < p.len());
        assert(all.take(m) =~= p.take(m));
        assert(all[m] == p[m]);
        let j = choose|j: int|
            0 <= j < keys.len() && offset_before(p, m) == keys[j]
                && line.commentary[keys[j]].description == Some(p[m]->Description_0);
        assert(keys.to_set().contains(keys[j]));
    }
    assert forall|k: usize|
        #![trigger line.commentary[k]]
        line.commentary.contains_key(k) && line.commentary[k].description is Some implies exists|
            m: int,
        |
            0 <= m < all.len() && all[m] == PartModel::Description(
                line.commentary[k].description.unwrap(),
            ) && offset_before(all, m) == k by {
        assert(keys.to_set().contains(k));
        let j = choose|j: int| 0 <= j < keys.len() && keys[j] == k;
        assert(keys[j] == k);
        let m = choose|m: int|
            0 <= m < p.len() && p[m] == PartModel::Description(
                line.commentary[keys[j]].description.unwrap(),
            ) && offset_before(p, m) == keys[j];
        assert(all.take(m) =~= p.take(m));
        assert(all[m] == p[m]);
    }
}

fn line_layout(line: &Line) -> (r: Option<Vec<HtmlPart>>)
    ensures
        r is Some <==> line_fits(line@),
        r matches Some(v) ==> parts_view(v) == line_parts(line@),
        r matches Some(v) ==> pieces_text(parts_view(v)) == line@.text,
{
    let ghost lm = line@;
    let chars = chars_of(line.text.as_str());
    let keys = keys_in_order(&line.commentary);
    let ghost ks = keys@;
    proof {
        assert(lm.commentary.dom() =~= line.commentary@.dom());
    }
    let mut parts: Vec<HtmlPart> = Vec::new();
    let mut prev: usize = 0;
    for j in 0..keys.len()
        invariant
            lm == line@,
            chars@ == lm.text,
            ks == keys@,
            ks == sorted_keys(lm.commentary.dom()),
            increasing(ks),
            ks.to_set() == lm.commentary.dom(),
            prev == (if j == 0 {
                0
            } else {
                ks[j - 1]
            }),
            prev <= chars.len(),
            parts_view(parts) == parts_upto(lm, ks, j as nat),
            pieces_text(parts_view(parts)) == lm.text.subrange(0, prev as int),
            forall|i: int| 0 <= i < j ==> ks[i] < lm.text.len(),
    {
        let key = keys[j];
        proof {
            assert(ks.to_set().contains(key));
            if j > 0 {
                assert(ks[j - 1] < ks[j as int]);
            }
        }
        if key >= chars.len() {
            return None;
        }
        let c = line.commentary.get(&key).unwrap();
        let mut piece_chars: Vec<char> = Vec::new();
        let mut i = prev;
        while i < key
            invariant
                prev <= i <= key < chars.len(),
                piece_chars@ == chars@.subrange(prev as int, i as int),
            decreases key - i,
        {
            piece_chars.push(chars[i]);
            assert(chars@.subrange(prev as int, i + 1) =~= chars@.subrange(prev as int, i as int).push(
                chars@[i as int],
            ));
            i = i + 1;
        }
        let piece = string_of(&piece_chars);
        let ghost before = parts_view(parts);
        parts.push(
            HtmlPart::Sentence {
                translation: match &c.sentence_translation {
                    Some(t) => Some(t.clone()),
                    None => None,
                },
                text: piece,
            },
        );
        match &c.description_paragraph {
            Some(d) => parts.push(HtmlPart::Description(d.clone())),
            None => {},
        }
        parts.push(HtmlPart::Break);
        proof {
            assert(c@ == lm.commentary[key]);
            let piece = lm.text.subrange(prev as int, key as int);
            assert(parts_view(parts) =~= before + commentary_parts(lm.commentary[key], piece));
            lemma_pieces_text_concat(before, commentary_parts(lm.commentary[key], piece));
            lemma_commentary_pieces(lm.commentary[key], piece);
            assert(lm.text.subrange(0, prev as int) + piece =~= lm.text.subrange(0, key as int));
        }
        prev = key;
    }
    proof {
        assert forall|k: usize| lm.commentary.contains_key(k) implies k < lm.text.len() by {
            assert(ks.to_set().contains(k));
            let i = choose|i: int| 0 <= i < ks.len() && ks[i] == k;
        }
    }
    let mut rest_chars: Vec<char> = Vec::new();
    let mut i = prev;
    while i < chars.len()
        invariant
            prev <= i <= chars.len(),
            rest_chars@ == chars@.subrange(prev as int, i as int),
        decreases chars.len() - i,
    {
        rest_chars.push(chars[i]);
        assert(chars@.subrange(prev as int, i + 1) =~= chars@.subrange(prev as int, i as int).push(
            chars@[i as int],
        ));
        i = i + 1;
    }
    let ghost before = parts_view(parts);
    parts.push(HtmlPart::Sentence { translation: None, text: string_of(&rest_chars) });
    parts.push(HtmlPart::Break);
    proof {
        assert(ks.take(ks.len() as int) =~= ks);
        assert(parts_view(parts) =~= line_parts(lm));
        let tail = seq![
            PartModel::Sentence { translation: None, text: lm.text.subrange(prev as int, lm.text.len() as int) },
            PartModel::Break,
        ];
        assert(parts_view(parts) =~= before + tail);
        lemma_pieces_text_concat(before, tail);
        assert(pieces_text(tail) =~= lm.text.subrange(prev as int, lm.text.len() as int)) by {
            reveal_with_fuel(pieces_text, 3);
            assert(tail.drop_last().drop_last() =~= Seq::<PartModel>::empty());
            assert(tail.drop_last() =~= seq![tail[0]]);
        }
        assert(lm.text.subrange(0, prev as int) + lm.text.subrange(prev as int, lm.text.len() as int)
            =~= lm.text);
    }
    Some(parts)
}

/// The page title.
pub open spec fn page_title() -> Seq<char> {
    "weekl sicha"@
}

/// A text can be laid out as a page: each commentary key is inside its line.
pub open spec fn page_fits(t: Seq<LineModel>) -> bool {
    forall|i: int| 0 <= i < t.len() ==> line_fits(#[trigger] t[i])
}

/// The page of a text, or `None` where laying it out would panic.
pub fn try_create_html(text: &Text) -> (r: Option<HtmlPage>)
    ensures
        r is Some <==> page_fits(text@),
        r matches Some(p) ==> p.title@ == page_title() && p.lines@.len() == text@.len() && (
        forall|i: int| 0 <= i < text@.len() ==> parts_view(#[trigger] p.lines@[i]) == line_parts(
            text@[i],
        )),
        r matches Some(p) ==> forall|i: int|
            0 <= i < text@.len() ==> pieces_text(parts_view(#[trigger] p.lines@[i])) == text@[i].text,
{
    let mut lines: Vec<Vec<HtmlPart>> = Vec::new();
    for i in 0..text.text.len()
        invariant
            lines@.len() == i,
            forall|k: int| 0 <= k < i ==> line_fits(#[trigger] text@[k]),
            forall|k: int|
                0 <= k < i ==> parts_view(#[trigger] lines@[k]) == line_parts(text@[k]),
            forall|k: int|
                0 <= k < i ==> pieces_text(parts_view(#[trigger] lines@[k])) == text@[k].text,
    {
        match line_layout(&text.text[i]) {
            Some(parts) => lines.push(parts),
            None => {
                assert(!line_fits(text@[i as int]));
                return None;
            },
        }
    }
    Some(HtmlPage { title: String::from_str("weekl sicha"), lines })
}

/// The page of a text.
pub fn create_html(text: &Text) -> (r: HtmlPage)
    requires
        page_fits(text@),
    ensures
        r.title@ == page_title(),
        r.lines@.len() == text@.len(),
        forall|i: int|
            0 <= i < text@.len() ==> parts_view(#[trigger] r.lines@[i]) == line_parts(text@[i]),
        forall|i: int|
            0 <= i < text@.len() ==> pieces_text(parts_view(#[trigger] r.lines@[i])) == text@[i].text,
{
    try_create_html(text).unwrap()
}

} // verus!
