//! Placeholders: a command may name a variable of its library as `$name`, the
//! library's source as `$source` and its revision as `$commit`.
//!
//! The placeholders are filled in by passes over the command, one for each
//! variable in the order of the library's map, then one for `$source`, then
//! one for `$commit`. A pass looks only at what is still as it was written:
//! there it replaces every occurrence of its placeholder, from left to right,
//! whatever stands around it. What a pass has put in is searched by no pass,
//! neither by the same nor by a later one, and no placeholder is found that
//! begins in one written part and ends in another. A placeholder of which no
//! pass knows the name stays as it is written.
//!
//! So the order of the passes decides where one placeholder begins like
//! another: a variable `so` takes the beginning of `$source`, and of two
//! variables `lib` and `libdir` the one that the map holds first is tried
//! first.

use indexmap::IndexMap;
use vstd::prelude::*;
use vstd::string::{StrSliceExecFns, StringExecFns};
use crate::config::{variable_at, variable_count, variable_entries, Library, LibraryView};
use crate::text::{
    chars_of,
    first_occurrence,
    lemma_first_occurrence,
    lemma_no_occurrence,
    matches_at,
    occurs_in,
};

verus! {

/// A part of a command.
pub enum PieceView {
    /// Text as it was written, which the passes still search.
    Written(Seq<char>),
    /// Text that a pass has put in, which no pass searches.
    PutIn(Seq<char>),
}

/// The text of a piece.
pub open spec fn piece_text(piece: PieceView) -> Seq<char> {
    match piece {
        PieceView::Written(text) => text,
        PieceView::PutIn(text) => text,
    }
}

/// The pieces, one after the other, as one text.
pub open spec fn joined(pieces: Seq<PieceView>) -> Seq<char>
    decreases pieces.len(),
{
    if pieces.len() == 0 {
        Seq::empty()
    } else {
        joined(pieces.drop_last()) + piece_text(pieces.last())
    }
}

/// The placeholder for `name`: a dollar sign and the name.
pub open spec fn placeholder(name: Seq<char>) -> Seq<char> {
    "$"@ + name
}

/// What one pass makes of a written text: the text is split at each
/// occurrence of `pattern`, from left to right, and `with` is put in where
/// the occurrence was. An empty pattern occurs nowhere.
pub open spec fn pass_over_text(text: Seq<char>, pattern: Seq<char>, with: Seq<char>) -> Seq<
    PieceView,
>
    decreases text.len(),
    via pass_over_text_decreases
{
    let at = first_occurrence(text, pattern);
    if pattern.len() == 0 || at >= text.len() {
        seq![PieceView::Written(text)]
    } else {
        seq![PieceView::Written(text.take(at)), PieceView::PutIn(with)] + pass_over_text(
            text.skip(at + pattern.len()),
            pattern,
            with,
        )
    }
}

#[via_fn]
proof fn pass_over_text_decreases(text: Seq<char>, pattern: Seq<char>, with: Seq<char>) {
    lemma_first_occurrence(text, pattern);
}

/// What one pass makes of a piece: a written one is searched, one that was
/// put in stays as it is.
pub open spec fn pass_over_piece(piece: PieceView, pattern: Seq<char>, with: Seq<char>) -> Seq<
    PieceView,
> {
    match piece {
        PieceView::Written(text) => pass_over_text(text, pattern, with),
        PieceView::PutIn(_) => seq![piece],
    }
}

/// What one pass makes of the pieces, each in its place.
pub open spec fn pass(pieces: Seq<PieceView>, pattern: Seq<char>, with: Seq<char>) -> Seq<
    PieceView,
>
    decreases pieces.len(),
{
    if pieces.len() == 0 {
        Seq::empty()
    } else {
        pass(pieces.drop_last(), pattern, with) + pass_over_piece(pieces.last(), pattern, with)
    }
}

/// The pieces after the passes for `variables`, in their order.
pub open spec fn variable_passes(pieces: Seq<PieceView>, variables: Seq<(Seq<char>, Seq<char>)>) ->
    Seq<PieceView>
    decreases variables.len(),
{
    if variables.len() == 0 {
        pieces
    } else {
        pass(
            variable_passes(pieces, variables.drop_last()),
            placeholder(variables.last().0),
            variables.last().1,
        )
    }
}

/// The pieces after all passes for `library`: its variables, its source, its
/// revision.
pub open spec fn all_passes(pieces: Seq<PieceView>, library: LibraryView) -> Seq<PieceView> {
    pass(
        pass(variable_passes(pieces, library.variables), placeholder("source"@), library.source),
        placeholder("commit"@),
        library.commit,
    )
}

/// `text` after the passes for `variables`.
pub open spec fn with_variables(text: Seq<char>, variables: Seq<(Seq<char>, Seq<char>)>) -> Seq<
    char,
> {
    joined(variable_passes(seq![PieceView::Written(text)], variables))
}

/// `text` after all passes for `library`.
pub open spec fn substituted(text: Seq<char>, library: LibraryView) -> Seq<char> {
    joined(all_passes(seq![PieceView::Written(text)], library))
}

/// Each of `commands` after all passes for `library`.
pub open spec fn substituted_all(commands: Seq<Seq<char>>, library: LibraryView) -> Seq<
    Seq<char>,
> {
    Seq::new(commands.len(), |i: int| substituted(commands[i], library))
}

/// No pass for `variables` finds its placeholder in `text`.
pub open spec fn names_none_of(text: Seq<char>, variables: Seq<(Seq<char>, Seq<char>)>) -> bool {
    forall|i: int|
        0 <= i < variables.len() ==> !occurs_in(placeholder((#[trigger] variables[i]).0), text)
}

/// A pass over a written text in which its placeholder does not occur leaves
/// the text in one piece.
pub proof fn lemma_pass_without_occurrence(text: Seq<char>, pattern: Seq<char>, with: Seq<char>)
    requires
        !occurs_in(pattern, text),
    ensures
        pass(seq![PieceView::Written(text)], pattern, with) == seq![PieceView::Written(text)],
{
    lemma_no_occurrence(text, pattern);
    let piece = PieceView::Written(text);
    assert(seq![piece].drop_last() =~= Seq::<PieceView>::empty());
    assert(pass(seq![piece].drop_last(), pattern, with) =~= Seq::<PieceView>::empty());
    assert(pass(seq![piece], pattern, with) =~= seq![piece]);
}

/// The passes for variables of which none is named in a written text leave
/// the text in one piece.
proof fn lemma_unknown_variables_stay(text: Seq<char>, variables: Seq<(Seq<char>, Seq<char>)>)
    requires
        names_none_of(text, variables),
    ensures
        variable_passes(seq![PieceView::Written(text)], variables) == seq![
            PieceView::Written(text),
        ],
    decreases variables.len(),
{
    if variables.len() > 0 {
        let before = variables.drop_last();
        assert forall|i: int| 0 <= i < before.len() implies !occurs_in(
            placeholder((#[trigger] before[i]).0),
            text,
        ) by {
            assert(before[i] == variables[i]);
        }
        lemma_unknown_variables_stay(text, before);
        let last = variables[variables.len() - 1];
        lemma_pass_without_occurrence(text, placeholder(last.0), last.1);
    }
}

/// One piece, joined, is its text.
proof fn lemma_joined_one(piece: PieceView)
    ensures
        joined(seq![piece]) == piece_text(piece),
{
    assert(seq![piece].drop_last() =~= Seq::<PieceView>::empty());
    assert(joined(seq![piece].drop_last()) =~= Seq::<char>::empty());
    assert(Seq::<char>::empty() + piece_text(piece) =~= piece_text(piece));
}

/// A command in which no pass finds its placeholder stays as it is written,
/// whatever else it holds.
pub proof fn lemma_unknown_placeholders_stay(text: Seq<char>, library: LibraryView)
    requires
        names_none_of(text, library.variables),
        !occurs_in(placeholder("source"@), text),
        !occurs_in(placeholder("commit"@), text),
    ensures
        with_variables(text, library.variables) == text,
        substituted(text, library) == text,
{
    lemma_unknown_variables_stay(text, library.variables);
    lemma_pass_without_occurrence(text, placeholder("source"@), library.source);
    lemma_pass_without_occurrence(text, placeholder("commit"@), library.commit);
    lemma_joined_one(PieceView::Written(text));
}

/// What a pass has put in stays as it is under every later pass: the pieces
/// that a pass makes of a piece that was put in are that piece alone.
pub proof fn lemma_put_in_stays(value: Seq<char>, pattern: Seq<char>, with: Seq<char>)
    ensures
        pass(seq![PieceView::PutIn(value)], pattern, with) == seq![PieceView::PutIn(value)],
{
    let piece = PieceView::PutIn(value);
    assert(seq![piece].drop_last() =~= Seq::<PieceView>::empty());
    assert(pass(seq![piece].drop_last(), pattern, with) =~= Seq::<PieceView>::empty());
    assert(pass(seq![piece], pattern, with) =~= seq![piece]);
}

/// A part of a command.
enum Piece {
    Written(String),
    PutIn(String),
}

impl View for Piece {
    type V = PieceView;

    closed spec fn view(&self) -> PieceView {
        match self {
            Piece::Written(text) => PieceView::Written(text@),
            Piece::PutIn(text) => PieceView::PutIn(text@),
        }
    }
}

/// The pieces, each as a mathematical value.
spec fn piece_views(pieces: Seq<Piece>) -> Seq<PieceView> {
    Seq::new(pieces.len(), |i: int| pieces[i]@)
}

/// Adds to `out` what one pass makes of the written text `text`.
fn pass_text(out: &mut Vec<Piece>, text: &str, pattern: &Vec<char>, with: &str)
    ensures
        piece_views(final(out)@) == piece_views(old(out)@) + pass_over_text(
            text@,
            pattern@,
            with@,
        ),
{
    let ghost before = piece_views(out@);
    let t = chars_of(text);
    let n = t.len();
    let m = pattern.len();
    if m == 0 || n < m {
        proof {
            lemma_first_occurrence(text@, pattern@);
        }
        out.push(Piece::Written(text.to_owned()));
        assert(piece_views(out@) =~= before + seq![PieceView::Written(text@)]);
        return ;
    }
    let mut kept: usize = 0;
    let mut i: usize = 0;
    assert(text@.skip(0) == text@);
    assert(before + pass_over_text(text@, pattern@, with@) =~= piece_views(out@) + pass_over_text(
        text@,
        pattern@,
        with@,
    ));
    while i <= n - m
        invariant
            t@ == text@,
            n == t.len(),
            m == pattern.len(),
            0 < m <= n,
            kept <= i <= n,
            before + pass_over_text(text@, pattern@, with@) == piece_views(out@) + pass_over_text(
                text@.skip(kept as int),
                pattern@,
                with@,
            ),
            first_occurrence(text@.skip(kept as int), pattern@) == (i - kept) + first_occurrence(
                text@.skip(i as int),
                pattern@,
            ),
        decreases n - i,
    {
        let ghost rest = text@.skip(i as int);
        let ghost open = text@.skip(kept as int);
        let ghost views = piece_views(out@);
        assert(rest.take(m as int) == text@.subrange(i as int, i + m));
        if matches_at(&t, i, pattern) {
            assert(first_occurrence(open, pattern@) == i - kept);
            assert(open.take(i - kept) == text@.subrange(kept as int, i as int));
            assert(open.skip(i - kept + m) == text@.skip(i + m));
            out.push(Piece::Written(text.substring_char(kept, i).to_owned()));
            out.push(Piece::PutIn(with.to_owned()));
            assert(piece_views(out@) =~= views + seq![
                PieceView::Written(open.take(i - kept)),
                PieceView::PutIn(with@),
            ]);
            i += m;
            kept = i;
        } else {
            assert(rest.skip(1) == text@.skip(i + 1));
            i += 1;
        }
    }
    proof {
        lemma_first_occurrence(text@.skip(i as int), pattern@);
        assert(text@.skip(i as int).len() < m);
    }
    let ghost views = piece_views(out@);
    assert(text@.skip(kept as int) == text@.subrange(kept as int, n as int));
    out.push(Piece::Written(text.substring_char(kept, n).to_owned()));
    assert(piece_views(out@) =~= views + seq![PieceView::Written(text@.skip(kept as int))]);
}

/// What one pass makes of `pieces`: the pass for `$name`, which puts in
/// `value`.
fn pass_pieces(pieces: &Vec<Piece>, name: &str, value: &str) -> (out: Vec<Piece>)
    ensures
        piece_views(out@) == pass(piece_views(pieces@), placeholder(name@), value@),
{
    let mut text = "$".to_owned();
    text.append(name);
    let pattern = chars_of(text.as_str());
    let ghost all = piece_views(pieces@);
    let mut out: Vec<Piece> = Vec::new();
    let mut k: usize = 0;
    assert(piece_views(out@) =~= pass(all.take(0), pattern@, value@));
    while k < pieces.len()
        invariant
            all == piece_views(pieces@),
            pattern@ == placeholder(name@),
            k <= pieces.len(),
            piece_views(out@) == pass(all.take(k as int), pattern@, value@),
        decreases pieces.len() - k,
    {
        let ghost views = piece_views(out@);
        assert(all.take(k + 1).drop_last() == all.take(k as int));
        assert(all.take(k + 1).last() == pieces@[k as int]@);
        match &pieces[k] {
            Piece::Written(written) => {
                pass_text(&mut out, written.as_str(), &pattern, value);
            },
            Piece::PutIn(put_in) => {
                out.push(Piece::PutIn(put_in.clone()));
                assert(piece_views(out@) =~= views + seq![PieceView::PutIn(put_in@)]);
            },
        }
        k += 1;
    }
    assert(all.take(pieces.len() as int) == all);
    out
}

/// The pieces after the passes for `variables`, one variable after the other
/// in the order of the map.
fn pass_variables(pieces: Vec<Piece>, variables: &IndexMap<String, String>) -> (out: Vec<Piece>)
    ensures
        piece_views(out@) == variable_passes(piece_views(pieces@), variable_entries(*variables)),
{
    let ghost entries = variable_entries(*variables);
    let ghost first = piece_views(pieces@);
    let count = variable_count(variables);
    let mut out = pieces;
    let mut i: usize = 0;
    while i < count
        invariant
            entries == variable_entries(*variables),
            count == entries.len(),
            i <= count,
            piece_views(out@) == variable_passes(first, entries.take(i as int)),
        decreases count - i,
    {
        if let Some((name, value)) = variable_at(variables, i) {
            assert(entries.take(i + 1).drop_last() == entries.take(i as int));
            out = pass_pieces(&out, name.as_str(), value.as_str());
        }
        i += 1;
    }
    assert(entries.take(count as int) == entries);
    out
}

/// The pieces as one text.
fn join(pieces: &Vec<Piece>) -> (out: String)
    ensures
        out@ == joined(piece_views(pieces@)),
{
    let ghost all = piece_views(pieces@);
    let mut out = String::new();
    let mut k: usize = 0;
    while k < pieces.len()
        invariant
            all == piece_views(pieces@),
            k <= pieces.len(),
            out@ == joined(all.take(k as int)),
        decreases pieces.len() - k,
    {
        assert(all.take(k + 1).drop_last() == all.take(k as int));
        assert(all.take(k + 1).last() == pieces@[k as int]@);
        match &pieces[k] {
            Piece::Written(text) => {
                out.append(text.as_str());
            },
            Piece::PutIn(text) => {
                out.append(text.as_str());
            },
        }
        k += 1;
    }
    assert(all.take(pieces.len() as int) == all);
    out
}

/// `command` as it was written, in one piece.
fn written(command: &str) -> (pieces: Vec<Piece>)
    ensures
        piece_views(pieces@) == seq![PieceView::Written(command@)],
{
    let mut pieces: Vec<Piece> = Vec::new();
    pieces.push(Piece::Written(command.to_owned()));
    assert(piece_views(pieces@) =~= seq![PieceView::Written(command@)]);
    pieces
}

/// `command` with the variables' placeholders filled in, one variable after
/// the other in the order of the map. No pass searches what a pass has put
/// in.
pub fn replace_placeholders(command: &str, variables: &IndexMap<String, String>) -> (out: String)
    ensures
        out@ == with_variables(command@, variable_entries(*variables)),
{
    let pieces = pass_variables(written(command), variables);
    join(&pieces)
}

/// `command` with all placeholders of `library` filled in: its variables',
/// then `$source`, then `$commit`. No pass searches what a pass has put in.
pub fn substitute(command: &str, library: &Library) -> (out: String)
    ensures
        out@ == substituted(command@, library@),
{
    let after_variables = pass_variables(written(command), &library.variables);
    let after_source = pass_pieces(&after_variables, "source", library.source.as_str());
    let after_commit = pass_pieces(&after_source, "commit", library.commit.as_str());
    join(&after_commit)
}

} // verus!
