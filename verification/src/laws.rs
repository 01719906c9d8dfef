//! What holds of every configuration, whatever its lines are.

use vstd::prelude::*;
use crate::config::LibraryView;
use crate::lex::{
    end_marker,
    is_boundary,
    is_ignorable,
    line_command,
    line_token,
    scan_command,
    scan_token,
    LineCommand,
    LineToken,
    SyntaxErrorView,
    TokenView,
};
use crate::ordered::{
    distinct_keys,
    is_last_of_its_key,
    keys,
    lemma_put_distinct,
    lemma_put_values,
    lemma_stored_keys,
    lemma_stored_last_wins,
    lemma_stored_new,
    noted_all,
    put,
    stored,
    value_of,
};
use crate::parser::{
    assigned,
    blank_library,
    changed,
    changed_open,
    closed,
    first_draft,
    lemma_scan_commands_advances,
    lemma_scan_token_advances,
    opened,
    parsed,
    parsed_from,
    scan_commands,
    with_step,
    ConfigView,
    Draft,
};
use crate::substitute::substituted_all;
use crate::text::{lemma_position_of, trimmed};

verus! {

/// In token mode the end marker is the end of the configuration; in command
/// mode it is a boundary.
pub proof fn lemma_end_marker_line()
    ensures
        line_token(end_marker()) == LineToken::Found(TokenView::EndOfConfig),
        line_command(end_marker()) == LineCommand::Boundary,
{
    let t = end_marker();
    lemma_position_of(t, '=');
    assert(t[0] == '%' && t[1] == 'e' && t[2] == 'n' && t[3] == 'd');
    assert(!t.contains('=')) by {
        if t.contains('=') {
            let i = choose|i: int| 0 <= i < t.len() && t[i] == '=';
            assert(i == 0 || i == 1 || i == 2 || i == 3);
        }
    }
}

/// The tokenizer does not look past an end marker: up to the marker it finds
/// the same token with the later lines as without them, and it stops at the
/// marker or before it.
proof fn lemma_scan_token_before_end(lines: Seq<Seq<char>>, k: int, pos: int)
    requires
        0 <= pos <= k < lines.len(),
        trimmed(lines[k]) == end_marker(),
    ensures
        scan_token(lines.take(k + 1), pos).0 == scan_token(lines, pos).0,
        scan_token(lines, pos).0 != Ok::<TokenView, SyntaxErrorView>(TokenView::EndOfConfig) ==> {
            &&& scan_token(lines.take(k + 1), pos).1 == scan_token(lines, pos).1
            &&& pos < scan_token(lines, pos).1 <= k
        },
    decreases k - pos,
{
    lemma_end_marker_line();
    assert(lines.take(k + 1)[pos] == lines[pos]);
    if pos < k {
        lemma_scan_token_before_end(lines, k, pos + 1);
    }
}

/// The command collector does not look past an end marker.
proof fn lemma_scan_commands_before_end(lines: Seq<Seq<char>>, k: int, pos: int)
    requires
        0 <= pos <= k < lines.len(),
        trimmed(lines[k]) == end_marker(),
    ensures
        scan_commands(lines.take(k + 1), pos) == scan_commands(lines, pos),
        pos <= scan_commands(lines, pos).1 <= k,
    decreases k - pos,
{
    lemma_end_marker_line();
    assert(lines.take(k + 1)[pos] == lines[pos]);
    if pos < k {
        lemma_scan_commands_before_end(lines, k, pos + 1);
    }
}

/// The builder does not look past an end marker.
proof fn lemma_parsed_before_end(lines: Seq<Seq<char>>, k: int, pos: int, draft: Draft)
    requires
        0 <= pos <= k < lines.len(),
        trimmed(lines[k]) == end_marker(),
    ensures
        parsed_from(lines.take(k + 1), pos, draft) == parsed_from(lines, pos, draft),
    decreases k - pos,
{
    lemma_scan_token_before_end(lines, k, pos);
    let (found, next) = scan_token(lines, pos);
    match found {
        Ok(TokenView::LibraryName(name)) => {
            lemma_parsed_before_end(lines, k, next, opened(draft, name));
        },
        Ok(TokenView::KeyValue(key, value)) => {
            lemma_parsed_before_end(
                lines,
                k,
                next,
                changed(draft, |library: LibraryView| assigned(library, key, value)),
            );
        },
        Ok(TokenView::Step(name)) => {
            lemma_scan_commands_before_end(lines, k, next);
            let (commands, after) = scan_commands(lines, next);
            lemma_parsed_before_end(
                lines,
                k,
                after,
                changed(draft, |library: LibraryView| with_step(library, name, commands)),
            );
        },
        _ => {},
    }
}

/// After the end marker the tokenizer has consumed all lines: it finds no
/// token and no command any more, whatever follows the marker.
pub proof fn lemma_end_marker_ends_the_tokens(lines: Seq<Seq<char>>, pos: int)
    requires
        scan_token(lines, pos).0 == Ok::<TokenView, SyntaxErrorView>(TokenView::EndOfConfig),
    ensures
        scan_token(lines, pos).1 == lines.len(),
        scan_token(lines, scan_token(lines, pos).1) == (
            Ok::<TokenView, SyntaxErrorView>(TokenView::EndOfFile),
            lines.len() as int,
        ),
        scan_command(lines, scan_token(lines, pos).1) == (None::<Seq<char>>, lines.len() as int),
    decreases lines.len() - pos,
{
    if 0 <= pos < lines.len() {
        if line_token(trimmed(lines[pos])) is Skipped {
            lemma_end_marker_ends_the_tokens(lines, pos + 1);
        }
    }
}

/// What follows an end marker changes nothing: the lines up to and with the
/// marker describe the same configuration, or fail with the same error, as
/// all the lines do.
pub proof fn lemma_nothing_after_end_marker(lines: Seq<Seq<char>>, k: int)
    requires
        0 <= k < lines.len(),
        trimmed(lines[k]) == end_marker(),
    ensures
        parsed(lines) == parsed(lines.take(k + 1)),
{
    lemma_parsed_before_end(lines, k, 0, first_draft());
}

/// The commands of a step end exactly at the next boundary, which is left
/// where it is: no line before it is a boundary, and the tokenizer, called
/// next, starts on the boundary itself, so that a header or an end marker
/// there is the token it finds.
pub proof fn lemma_commands_end_at_boundary(lines: Seq<Seq<char>>, pos: int)
    requires
        0 <= pos <= lines.len(),
    ensures
        pos <= scan_commands(lines, pos).1 <= lines.len(),
        scan_commands(lines, pos).1 < lines.len() ==> is_boundary(
            trimmed(lines[scan_commands(lines, pos).1]),
        ),
        forall|j: int|
            pos <= j < scan_commands(lines, pos).1 ==> !is_boundary(#[trigger] trimmed(lines[j])),
        scan_commands(lines, pos).1 < lines.len() ==> (line_token(
            trimmed(lines[scan_commands(lines, pos).1]),
        ) matches LineToken::Found(token) ==> scan_token(lines, scan_commands(lines, pos).1).0
            == Ok::<TokenView, SyntaxErrorView>(token)),
        scan_commands(lines, pos).1 < lines.len() ==> (line_token(
            trimmed(lines[scan_commands(lines, pos).1]),
        ) is Malformed ==> scan_token(lines, scan_commands(lines, pos).1).0 is Err),
    decreases lines.len() - pos,
{
    if pos < lines.len() {
        lemma_commands_end_at_boundary(lines, pos + 1);
    }
}

/// Where the command collector finds no command, it stands on a boundary or
/// at the end of the lines, and has passed over nothing but empty lines and
/// comments; where it finds one, it has consumed the command's line and
/// stands behind it.
pub proof fn lemma_command_or_boundary(lines: Seq<Seq<char>>, pos: int)
    requires
        0 <= pos <= lines.len(),
    ensures
        pos <= scan_command(lines, pos).1 <= lines.len(),
        scan_command(lines, pos).0 is None ==> {
            &&& forall|j: int|
                pos <= j < scan_command(lines, pos).1 ==> is_ignorable(#[trigger] trimmed(lines[j]))
            &&& scan_command(lines, pos).1 < lines.len() ==> is_boundary(
                trimmed(lines[scan_command(lines, pos).1]),
            )
        },
        scan_command(lines, pos).0 matches Some(command) ==> {
            &&& forall|j: int|
                pos <= j < scan_command(lines, pos).1 - 1 ==> is_ignorable(
                    #[trigger] trimmed(lines[j]),
                )
            &&& command == trimmed(lines[scan_command(lines, pos).1 - 1])
            &&& !is_boundary(command)
            &&& !is_ignorable(command)
        },
    decreases lines.len() - pos,
{
    if pos < lines.len() {
        lemma_command_or_boundary(lines, pos + 1);
    }
}

/// `lines` with the line `extra` put in at index `k`.
pub open spec fn with_line(lines: Seq<Seq<char>>, k: int, extra: Seq<char>) -> Seq<Seq<char>> {
    lines.take(k).push(extra) + lines.skip(k)
}

/// The number that line `line` has once a line is put in at index `k`: one
/// more where it stands behind the new line. Lines are numbered from 1.
pub open spec fn moved_line(line: int, k: int) -> int {
    if line <= k {
        line
    } else {
        line + 1
    }
}

/// The error `e` as it is found once a line is put in at index `k`: on the
/// same text, under the number that its line then has.
pub open spec fn moved_error(e: SyntaxErrorView, k: int) -> SyntaxErrorView {
    SyntaxErrorView { line: moved_line(e.line, k), content: e.content }
}

/// `b` is the tokenizer's result `a` as it is found once a line is put in at
/// index `k`: the same token, or the same error on its moved line.
pub open spec fn same_finding(
    a: Result<TokenView, SyntaxErrorView>,
    b: Result<TokenView, SyntaxErrorView>,
    k: int,
) -> bool {
    match a {
        Ok(token) => b == Ok::<TokenView, SyntaxErrorView>(token),
        Err(e) => b == Err::<TokenView, SyntaxErrorView>(moved_error(e, k)),
    }
}

/// `b` is the builder's result `a` as it is found once a line is put in at
/// index `k`: the same configuration, or the same error on its moved line.
pub open spec fn same_outcome(
    a: Result<ConfigView, SyntaxErrorView>,
    b: Result<ConfigView, SyntaxErrorView>,
    k: int,
) -> bool {
    match a {
        Ok(config) => b == Ok::<ConfigView, SyntaxErrorView>(config),
        Err(e) => b == Err::<ConfigView, SyntaxErrorView>(moved_error(e, k)),
    }
}

/// Position `q` in the lines with a line put in at `k` is where position `p`
/// was before. The position `k` itself has two such places: on the new line and
/// behind it.
spec fn corresponds(p: int, q: int, k: int) -> bool {
    if p < k {
        q == p
    } else if p == k {
        q == k || q == k + 1
    } else {
        q == p + 1
    }
}

/// One more empty line or comment changes no token.
proof fn lemma_scan_token_with_line(lines: Seq<Seq<char>>, k: int, extra: Seq<char>, p: int, q: int)
    requires
        0 <= k <= lines.len(),
        is_ignorable(trimmed(extra)),
        0 <= p <= lines.len(),
        corresponds(p, q, k),
    ensures
        same_finding(scan_token(lines, p).0, scan_token(with_line(lines, k, extra), q).0, k),
        corresponds(scan_token(lines, p).1, scan_token(with_line(lines, k, extra), q).1, k),
    decreases lines.len() - p, (if q == k { 1int } else { 0int }),
{
    let longer = with_line(lines, k, extra);
    if q == k {
        assert(longer[k] == extra);
        lemma_scan_token_with_line(lines, k, extra, p, k + 1);
    } else if p < lines.len() {
        assert(longer[q] == lines[p]);
        lemma_scan_token_with_line(lines, k, extra, p + 1, q + 1);
    }
}

/// One more empty line or comment changes no command.
proof fn lemma_scan_commands_with_line(
    lines: Seq<Seq<char>>,
    k: int,
    extra: Seq<char>,
    p: int,
    q: int,
)
    requires
        0 <= k <= lines.len(),
        is_ignorable(trimmed(extra)),
        0 <= p <= lines.len(),
        corresponds(p, q, k),
    ensures
        scan_commands(lines, p).0 == scan_commands(with_line(lines, k, extra), q).0,
        corresponds(scan_commands(lines, p).1, scan_commands(with_line(lines, k, extra), q).1, k),
    decreases lines.len() - p, (if q == k { 1int } else { 0int }),
{
    let longer = with_line(lines, k, extra);
    if q == k {
        assert(longer[k] == extra);
        lemma_scan_commands_with_line(lines, k, extra, p, k + 1);
    } else if p < lines.len() {
        assert(longer[q] == lines[p]);
        lemma_scan_commands_with_line(lines, k, extra, p + 1, q + 1);
    }
}

/// One more empty line or comment changes nothing of what the builder makes
/// of the lines.
proof fn lemma_parsed_with_line(
    lines: Seq<Seq<char>>,
    k: int,
    extra: Seq<char>,
    p: int,
    q: int,
    draft: Draft,
)
    requires
        0 <= k <= lines.len(),
        is_ignorable(trimmed(extra)),
        0 <= p <= lines.len(),
        corresponds(p, q, k),
    ensures
        same_outcome(
            parsed_from(lines, p, draft),
            parsed_from(with_line(lines, k, extra), q, draft),
            k,
        ),
    decreases lines.len() - p,
{
    let longer = with_line(lines, k, extra);
    lemma_scan_token_with_line(lines, k, extra, p, q);
    lemma_scan_token_advances(lines, p);
    let (found, next) = scan_token(lines, p);
    let moved = scan_token(longer, q).1;
    match found {
        Ok(TokenView::LibraryName(name)) => {
            lemma_parsed_with_line(lines, k, extra, next, moved, opened(draft, name));
        },
        Ok(TokenView::KeyValue(key, value)) => {
            lemma_parsed_with_line(
                lines,
                k,
                extra,
                next,
                moved,
                changed(draft, |library: LibraryView| assigned(library, key, value)),
            );
        },
        Ok(TokenView::Step(name)) => {
            lemma_scan_commands_with_line(lines, k, extra, next, moved);
            lemma_scan_commands_advances(lines, next);
            let (commands, after) = scan_commands(lines, next);
            lemma_parsed_with_line(
                lines,
                k,
                extra,
                after,
                scan_commands(longer, moved).1,
                changed(draft, |library: LibraryView| with_step(library, name, commands)),
            );
        },
        _ => {},
    }
}

/// An empty line or a comment, put in anywhere, changes nothing: the lines
/// describe the same configuration with it as without it, or fail at the same
/// step header, which is then one line further down if the new line stands
/// before it.
pub proof fn lemma_ignorable_line_changes_nothing(lines: Seq<Seq<char>>, k: int, extra: Seq<char>)
    requires
        0 <= k <= lines.len(),
        is_ignorable(trimmed(extra)),
    ensures
        same_outcome(parsed(lines), parsed(with_line(lines, k, extra)), k),
{
    lemma_parsed_with_line(lines, k, extra, 0, 0, first_draft());
}

/// The block that is open, as a sequence: one block or none.
pub open spec fn open_block(open: Option<(Seq<char>, LibraryView)>) -> ConfigView {
    match open {
        Some(block) => seq![block],
        None => Seq::empty(),
    }
}

/// The blocks from line `pos` on, `open` being the open one: for each library
/// header that the builder meets, in order, the header's name and the library
/// as the lines up to the next header describe it.
pub open spec fn blocks_from(
    lines: Seq<Seq<char>>,
    pos: int,
    open: Option<(Seq<char>, LibraryView)>,
) -> ConfigView
    decreases lines.len() - pos,
    via blocks_from_decreases
{
    let (found, next) = scan_token(lines, pos);
    match found {
        Ok(TokenView::LibraryName(name)) => open_block(open) + blocks_from(
            lines,
            next,
            Some((name, blank_library())),
        ),
        Ok(TokenView::KeyValue(key, value)) => blocks_from(
            lines,
            next,
            changed_open(open, |library: LibraryView| assigned(library, key, value)),
        ),
        Ok(TokenView::Step(name)) => {
            let (commands, after) = scan_commands(lines, next);
            blocks_from(
                lines,
                after,
                changed_open(open, |library: LibraryView| with_step(library, name, commands)),
            )
        },
        _ => open_block(open),
    }
}

#[via_fn]
proof fn blocks_from_decreases(
    lines: Seq<Seq<char>>,
    pos: int,
    open: Option<(Seq<char>, LibraryView)>,
) {
    lemma_scan_token_advances(lines, pos);
    lemma_scan_commands_advances(lines, scan_token(lines, pos).1);
}

/// The blocks of the lines, one for each library header, in order.
pub open spec fn blocks(lines: Seq<Seq<char>>) -> ConfigView {
    blocks_from(lines, 0, None)
}

/// The builder stores the open block and the blocks that follow, in order.
proof fn lemma_parsed_stores_blocks(lines: Seq<Seq<char>>, pos: int, draft: Draft)
    requires
        0 <= pos <= lines.len(),
    ensures
        parsed_from(lines, pos, draft) matches Ok(config) ==> config == stored(
            draft.libraries,
            blocks_from(lines, pos, draft.open),
        ),
    decreases lines.len() - pos,
{
    lemma_scan_token_advances(lines, pos);
    let (found, next) = scan_token(lines, pos);
    match found {
        Ok(TokenView::LibraryName(name)) => {
            lemma_parsed_stores_blocks(lines, next, opened(draft, name));
            let later = blocks_from(lines, next, Some((name, blank_library())));
            let all = open_block(draft.open) + later;
            assert(blocks_from(lines, pos, draft.open) == all);
            if let Some(block) = draft.open {
                assert(all[0] == block);
                assert(all.drop_first() =~= later);
                assert(stored(draft.libraries, all) == stored(closed(draft), later));
            } else {
                assert(all =~= later);
            }
        },
        Ok(TokenView::KeyValue(key, value)) => {
            lemma_parsed_stores_blocks(
                lines,
                next,
                changed(draft, |library: LibraryView| assigned(library, key, value)),
            );
        },
        Ok(TokenView::Step(name)) => {
            lemma_scan_commands_advances(lines, next);
            let (commands, after) = scan_commands(lines, next);
            lemma_parsed_stores_blocks(
                lines,
                after,
                changed(draft, |library: LibraryView| with_step(library, name, commands)),
            );
        },
        _ => {
            if draft.open is Some {
                let none = Seq::<(Seq<char>, LibraryView)>::empty();
                assert(open_block(draft.open).drop_first() =~= none);
                assert(stored(closed(draft), none) == closed(draft));
            }
        },
    }
}

/// A configuration holds its blocks, stored one after the other under their
/// names. So its libraries stand in the order in which their names were first
/// declared, each name once; of the blocks of one name the last one decides;
/// and where no name is declared twice, the configuration is the sequence of
/// its blocks: one library for each header, in the order of the headers.
pub proof fn lemma_libraries_are_the_blocks(lines: Seq<Seq<char>>)
    ensures
        parsed(lines) matches Ok(config) ==> {
            &&& config == stored(Seq::empty(), blocks(lines))
            &&& keys(config) == noted_all(Seq::empty(), keys(blocks(lines)))
            &&& forall|i: int|
                0 <= i < blocks(lines).len() && #[trigger] is_last_of_its_key(blocks(lines), i)
                    ==> value_of(config, blocks(lines)[i].0) == Some(blocks(lines)[i].1)
            &&& keys(blocks(lines)).no_duplicates() ==> config == blocks(lines)
        },
{
    lemma_parsed_stores_blocks(lines, 0, first_draft());
    let none = Seq::<(Seq<char>, LibraryView)>::empty();
    let all = blocks(lines);
    lemma_stored_keys(none, all);
    assert(keys(none) =~= Seq::<Seq<char>>::empty());
    assert forall|i: int| 0 <= i < all.len() && #[trigger] is_last_of_its_key(all, i) implies value_of(
        stored(none, all),
        all[i].0,
    ) == Some(all[i].1) by {
        lemma_stored_last_wins(none, all, i);
    }
    if keys(all).no_duplicates() {
        assert(keys(none) + keys(all) =~= keys(all));
        lemma_stored_new(none, all);
        assert(none + all =~= all);
    }
}

/// No variable and no step of the library occurs twice.
pub open spec fn library_well_formed(library: LibraryView) -> bool {
    distinct_keys(library.variables) && distinct_keys(library.steps)
}

/// No library occurs twice, and each library is well formed.
pub open spec fn well_formed(config: ConfigView) -> bool {
    &&& distinct_keys(config)
    &&& forall|i: int| 0 <= i < config.len() ==> library_well_formed((#[trigger] config[i]).1)
}

/// The libraries that are closed are well formed, and so is the open one.
spec fn draft_well_formed(draft: Draft) -> bool {
    &&& well_formed(draft.libraries)
    &&& draft.open matches Some((_, library)) ==> library_well_formed(library)
}

/// Closing the open library keeps the libraries well formed.
proof fn lemma_closed_well_formed(draft: Draft)
    requires
        draft_well_formed(draft),
    ensures
        well_formed(closed(draft)),
{
    if let Some((name, library)) = draft.open {
        lemma_put_distinct(draft.libraries, name, library);
        let after = put(draft.libraries, name, library);
        assert forall|i: int| 0 <= i < after.len() implies library_well_formed(
            (#[trigger] after[i]).1,
        ) by {
            lemma_put_values(draft.libraries, name, library, i);
        }
    }
}

/// From a well-formed draft the builder makes a well-formed configuration.
proof fn lemma_well_formed_from(lines: Seq<Seq<char>>, pos: int, draft: Draft)
    requires
        0 <= pos <= lines.len(),
        draft_well_formed(draft),
    ensures
        parsed_from(lines, pos, draft) matches Ok(config) ==> well_formed(config),
    decreases lines.len() - pos,
{
    lemma_scan_token_advances(lines, pos);
    lemma_closed_well_formed(draft);
    let (found, next) = scan_token(lines, pos);
    match found {
        Ok(TokenView::LibraryName(name)) => {
            lemma_well_formed_from(lines, next, opened(draft, name));
        },
        Ok(TokenView::KeyValue(key, value)) => {
            if let Some((_, library)) = draft.open {
                lemma_put_distinct(library.variables, key, value);
            }
            lemma_well_formed_from(
                lines,
                next,
                changed(draft, |library: LibraryView| assigned(library, key, value)),
            );
        },
        Ok(TokenView::Step(name)) => {
            lemma_scan_commands_advances(lines, next);
            let (commands, after) = scan_commands(lines, next);
            if let Some((_, library)) = draft.open {
                lemma_put_distinct(library.steps, name, substituted_all(commands, library));
            }
            lemma_well_formed_from(
                lines,
                after,
                changed(draft, |library: LibraryView| with_step(library, name, commands)),
            );
        },
        _ => {},
    }
}

/// In a configuration no library is there twice, and in a library no
/// variable and no step.
pub proof fn lemma_parsed_is_well_formed(lines: Seq<Seq<char>>)
    ensures
        parsed(lines) matches Ok(config) ==> well_formed(config),
{
    lemma_well_formed_from(lines, 0, first_draft());
}

} // verus!
