//! The store's two text operations: what `list` prints, and what `add`
//! appends.  Both work on the store file's text; reading and writing the
//! file itself is the caller's part.

use vstd::prelude::*;
use vstd::string::*;

use crate::entry::{
    lemma_find_char_at, lemma_line_seqs_append, lemma_parse_lines_push, line_seqs, models_of,
    parse_line, parse_store, parse_todos, EntryModel, Todo,
};
use crate::errors::TodoError;
use crate::numbers::{
    dec_digits, dec_str, i64_to_string, is_digit, lemma_dec_digits, lemma_parse_dec_str,
    I32_MAG,
};
use crate::order::{sort_entries, sort_todos, sorted_by_index};

verus! {

/// The first-gap walk: starting the candidate at `counter`, each entry
/// whose index equals the candidate advances it by one; the first
/// mismatch, or the end, settles it.
pub open spec fn next_index_from(s: Seq<EntryModel>, counter: int) -> int
    decreases s.len(),
{
    if s.len() == 0 {
        counter
    } else if s[0].index == counter {
        next_index_from(s.drop_first(), counter + 1)
    } else {
        counter
    }
}

/// The index `add` assigns: where the first-gap walk over the given
/// entries ends, starting the candidate at 1.  Over sorted indices
/// {1,2,3} this yields 4, over {2,3,4} it yields 1, over {1,3,4} it
/// yields 2: the walk stops at the first mismatch, so entries past the
/// first gap are never looked at.
pub fn next_index(todos: &Vec<Todo>) -> (r: i64)
    ensures
        r == next_index_from(models_of(todos@), 1),
        1 <= r <= I32_MAG,
{
    let mut counter: i64 = 1;
    let mut i: usize = 0;
    proof {
        assert(models_of(todos@).skip(0) =~= models_of(todos@));
    }
    loop
        invariant
            0 <= i <= todos@.len(),
            i + 1 == counter,
            1 <= counter <= I32_MAG,
            next_index_from(models_of(todos@), 1) == next_index_from(
                models_of(todos@).skip(i as int),
                counter as int,
            ),
        ensures
            counter == next_index_from(models_of(todos@), 1),
            1 <= counter <= I32_MAG,
        decreases todos@.len() - i,
    {
        if i >= todos.len() {
            proof {
                assert(models_of(todos@).skip(i as int) =~= Seq::<EntryModel>::empty());
            }
            break ;
        }
        let idx = todos[i].index;
        proof {
            assert(models_of(todos@).skip(i as int)[0] == models_of(todos@)[i as int]);
        }
        if idx as i64 != counter {
            break ;
        }
        proof {
            assert(models_of(todos@).skip(i as int).drop_first() =~= models_of(todos@).skip(
                i + 1,
            ));
        }
        counter = counter + 1;
        i += 1;
    }
    counter
}

/// The display line for one entry: `"<index>. <content>"`.
pub open spec fn display_line(e: EntryModel) -> Seq<char> {
    dec_str(e.index) + seq!['.', ' '] + e.content
}

/// The store line for one entry: `"<index> <content>"`.
pub open spec fn store_line(e: EntryModel) -> Seq<char> {
    dec_str(e.index) + seq![' '] + e.content
}

fn render_display(t: &Todo) -> (r: String)
    ensures
        r@ == display_line(t@),
{
    let mut r = i64_to_string(t.index as i64);
    r.append(". ");
    r.append(t.content.as_str());
    proof {
        reveal_strlit(". ");
        assert(". "@ =~= seq!['.', ' ']);
    }
    r
}

/// What `list` prints for a store text: every entry, sorted by index,
/// one `"<index>. <content>"` line each; or the first parse failure.
pub open spec fn list_output(text: Seq<char>) -> Option<Seq<Seq<char>>> {
    match parse_store(text) {
        Some(es) => Some(sort_entries(es).map_values(|e: EntryModel| display_line(e))),
        None => None,
    }
}

/// The `list` operation's text work, exactly as [`list_output`] says:
/// the store text's entries, sorted ascending by index (input order kept
/// among equal indices), each rendered as `"<index>. <content>"`.  A store
/// line that is no entry fails the whole listing.
pub fn list_lines(contents: &str) -> (r: Result<Vec<String>, TodoError>)
    ensures
        match r {
            Ok(v) => list_output(contents@) == Some(v.deep_view()),
            Err(e) => list_output(contents@) is None && e == TodoError::ParseError,
        },
{
    let todos = match parse_todos(contents) {
        Ok(v) => v,
        Err(e) => {
            return Err(e);
        },
    };
    let sorted = sort_todos(todos);
    let ghost target = models_of(sorted@).map_values(|e: EntryModel| display_line(e));
    let mut out: Vec<String> = Vec::new();
    proof {
        assert(out.deep_view() =~= target.take(0));
    }
    let mut i: usize = 0;
    while i < sorted.len()
        invariant
            0 <= i <= sorted@.len(),
            target == models_of(sorted@).map_values(|e: EntryModel| display_line(e)),
            out.deep_view() == target.take(i as int),
        decreases sorted@.len() - i,
    {
        let ghost out_before = out.deep_view();
        let line = render_display(&sorted[i]);
        out.push(line);
        proof {
            assert(out.deep_view() =~= out_before.push(line@));
            assert(models_of(sorted@)[i as int] == sorted@[i as int]@);
            assert(out_before.push(line@) =~= target.take(i + 1));
        }
        i += 1;
    }
    proof {
        assert(target.take(sorted@.len() as int) =~= target);
    }
    Ok(out)
}

/// The line `add` appends for new content: the next free index, one
/// space, and the content.
pub open spec fn added_line(text: Seq<char>, content: Seq<char>) -> Option<Seq<char>> {
    match parse_store(text) {
        Some(es) => Some(
            store_line(EntryModel { index: next_index_from(sort_entries(es), 1), content }),
        ),
        None => None,
    }
}

/// The `add` operation's text work, exactly as [`added_line`] says: the
/// store text's entries are read and sorted, the next free index is the
/// first-gap walk's answer, and the new store line is
/// `"<index> <content>"`.  Appending that line (plus a line terminator)
/// to the file is the caller's part.  A store line that is no entry fails
/// the whole operation.
pub fn add_line(contents: &str, content: &str) -> (r: Result<String, TodoError>)
    ensures
        match r {
            Ok(line) => added_line(contents@, content@) == Some(line@),
            Err(e) => added_line(contents@, content@) is None && e == TodoError::ParseError,
        },
{
    let todos = match parse_todos(contents) {
        Ok(v) => v,
        Err(e) => {
            return Err(e);
        },
    };
    let sorted = sort_todos(todos);
    let idx = next_index(&sorted);
    let mut line = i64_to_string(idx);
    line.append(" ");
    line.append(content);
    proof {
        reveal_strlit(" ");
        assert(" "@ =~= seq![' ']);
    }
    Ok(line)
}

proof fn lemma_next_index_from_lower(s: Seq<EntryModel>, c: int)
    ensures
        next_index_from(s, c) >= c,
    decreases s.len(),
{
    if s.len() > 0 && s[0].index == c {
        lemma_next_index_from_lower(s.drop_first(), c + 1);
    }
}

/// Some entry of `s` carries the index `v`.
pub open spec fn has_index(s: Seq<EntryModel>, v: int) -> bool {
    exists|i: int| 0 <= i < s.len() && (#[trigger] s[i]).index == v
}

proof fn lemma_walk_lowest_unused(s: Seq<EntryModel>, c: int)
    requires
        sorted_by_index(s),
        forall|i: int, j: int| 0 <= i < j < s.len() ==> s[i].index != s[j].index,
        forall|i: int| 0 <= i < s.len() ==> s[i].index >= c,
    ensures
        next_index_from(s, c) >= c,
        forall|i: int| 0 <= i < s.len() ==> s[i].index != next_index_from(s, c),
        forall|v: int| c <= v < next_index_from(s, c) ==> #[trigger] has_index(s, v),
    decreases s.len(),
{
    let r = next_index_from(s, c);
    if s.len() > 0 && s[0].index == c {
        let rest = s.drop_first();
        assert forall|i: int| 0 <= i < rest.len() implies rest[i].index >= c + 1 by {
            assert(rest[i] == s[i + 1]);
            assert(s[0].index <= s[i + 1].index);
            assert(s[0].index != s[i + 1].index);
        }
        lemma_walk_lowest_unused(rest, c + 1);
        assert(r == next_index_from(rest, c + 1));
        assert forall|i: int| 0 <= i < s.len() implies s[i].index != r by {
            if i > 0 {
                assert(s[i] == rest[i - 1]);
            }
        }
        assert forall|v: int| c <= v < r implies #[trigger] has_index(s, v) by {
            if v == c {
                assert(s[0].index == v);
            } else {
                assert(has_index(rest, v));
                let w = choose|i: int| 0 <= i < rest.len() && (#[trigger] rest[i]).index == v;
                assert(s[w + 1].index == v);
            }
        }
    } else {
        assert(r == c);
        assert forall|i: int| 0 <= i < s.len() implies s[i].index != c by {
            assert(s[0].index <= s[i].index);
            if s[i].index == c {
                assert(s[0].index == c);
            }
        }
    }
}

/// The assigned index really is the lowest unused positive one, on what
/// `add` walks over in the expected shape: entries sorted by distinct
/// positive indices.  No entry holds the walk's answer, every smaller
/// positive integer is some entry's index, and the answer is positive.
/// (With duplicate indices the walk can stop short of the true gap; that
/// short-circuit is the defined behaviour.)
pub proof fn lemma_next_index_lowest_unused(s: Seq<EntryModel>)
    requires
        sorted_by_index(s),
        forall|i: int, j: int| 0 <= i < j < s.len() ==> s[i].index != s[j].index,
        forall|i: int| 0 <= i < s.len() ==> s[i].index >= 1,
    ensures
        next_index_from(s, 1) >= 1,
        forall|i: int| 0 <= i < s.len() ==> s[i].index != next_index_from(s, 1),
        forall|v: int| 1 <= v < next_index_from(s, 1) ==> #[trigger] has_index(s, v),
{
    lemma_walk_lowest_unused(s, 1);
}

/// Reading back the store line of an entry whose index fits `i32` yields
/// that entry.
proof fn lemma_parse_store_line(e: EntryModel)
    requires
        0 <= e.index <= i32::MAX,
    ensures
        parse_line(store_line(e)) == Some(e),
{
    lemma_dec_digits(e.index);
    let dec = dec_digits(e.index);
    let line = store_line(e);
    assert(line == dec + seq![' '] + e.content);
    let k = dec.len() as int;
    assert forall|j: int| 0 <= j < k implies line[j] != ' ' by {
        assert(line[j] == dec[j]);
        assert(is_digit(dec[j]));
    }
    assert(line[k] == ' ');
    lemma_find_char_at(line, ' ', k);
    assert(line.take(k) =~= dec);
    lemma_parse_dec_str(e.index);
    assert(line.subrange(k + 1, line.len() as int) =~= e.content);
    assert(parse_line(line) matches Some(e2) && e2 =~= e);
}

/// The round trip behind `add`: a store text that parses, grown by the
/// line `add` appends plus its terminator, parses again — to the same
/// entries in the same order, followed by exactly the new one.  This
/// needs the store text to be empty or newline-terminated (else the new
/// line would run into the last old one), the content to be free of
/// newlines, and the assigned index to fit `i32`.
pub proof fn lemma_append_round_trip(text: Seq<char>, content: Seq<char>, es: Seq<EntryModel>)
    requires
        text.len() == 0 || text.last() == '\n',
        forall|i: int| 0 <= i < content.len() ==> content[i] != '\n',
        parse_store(text) == Some(es),
        next_index_from(sort_entries(es), 1) <= i32::MAX,
    ensures
        ({
            let e = EntryModel { index: next_index_from(sort_entries(es), 1), content };
            &&& added_line(text, content) == Some(store_line(e))
            &&& parse_store(text + store_line(e) + seq!['\n']) == Some(es.push(e))
        }),
{
    let idx = next_index_from(sort_entries(es), 1);
    lemma_next_index_from_lower(sort_entries(es), 1);
    let e = EntryModel { index: idx, content };
    let line = store_line(e);
    lemma_dec_digits(idx);
    let dec = dec_digits(idx);
    assert(line == dec + seq![' '] + content);
    assert forall|i: int| 0 <= i < line.len() implies line[i] != '\n' by {
        if i < dec.len() {
            assert(line[i] == dec[i]);
            assert(is_digit(dec[i]));
        } else if i == dec.len() {
            assert(line[i] == ' ');
        } else {
            assert(line[i] == content[i - dec.len() - 1]);
        }
    }
    lemma_line_seqs_append(text, line);
    lemma_parse_store_line(e);
    lemma_parse_lines_push(line_seqs(text), line, es, e);
}

} // verus!
