//! Todo entries and the line-oriented store text they are read from.
//!
//! Each store line is `"<index> <content>"`: a decimal index token, one
//! space, and free text.  The content is everything after the first space;
//! a line with no space has empty content.

use vstd::prelude::*;
use vstd::string::*;

use crate::errors::TodoError;
use crate::numbers::{parse_i32, parse_i32_str};

verus! {

/// One todo entry: a caller-assigned index and free-text content.
/// Indices are expected to be positive but nothing enforces it, and
/// duplicates are legal input; ordering and equality go by the index
/// alone.
pub struct Todo {
    pub index: i32,
    pub content: String,
}

/// The mathematical stand-in for an entry.
#[verifier::ext_equal]
pub struct EntryModel {
    pub index: int,
    pub content: Seq<char>,
}

impl View for Todo {
    type V = EntryModel;

    open spec fn view(&self) -> EntryModel {
        EntryModel { index: self.index as int, content: self.content@ }
    }
}

/// Entries compare equal exactly when their indices do; the content plays
/// no part.  This is the store's documented notion of entry equality.
impl PartialEq for Todo {
    fn eq(&self, other: &Todo) -> (r: bool) {
        self.index == other.index
    }
}

impl vstd::std_specs::cmp::PartialEqSpecImpl for Todo {
    open spec fn obeys_eq_spec() -> bool {
        true
    }

    open spec fn eq_spec(&self, other: &Todo) -> bool {
        self.index == other.index
    }
}

/// Entries order by index alone, ascending; entries sharing an index
/// compare equal whatever their content says.
impl PartialOrd for Todo {
    fn partial_cmp(&self, other: &Todo) -> (r: Option<core::cmp::Ordering>) {
        if self.index < other.index {
            Some(core::cmp::Ordering::Less)
        } else if self.index == other.index {
            Some(core::cmp::Ordering::Equal)
        } else {
            Some(core::cmp::Ordering::Greater)
        }
    }
}

impl vstd::std_specs::cmp::PartialOrdSpecImpl for Todo {
    open spec fn obeys_partial_cmp_spec() -> bool {
        true
    }

    open spec fn partial_cmp_spec(&self, other: &Todo) -> Option<core::cmp::Ordering> {
        if self.index < other.index {
            Some(core::cmp::Ordering::Less)
        } else if self.index == other.index {
            Some(core::cmp::Ordering::Equal)
        } else {
            Some(core::cmp::Ordering::Greater)
        }
    }
}

/// The models of a run of entries, in the same order.
pub open spec fn models_of(s: Seq<Todo>) -> Seq<EntryModel> {
    s.map_values(|t: Todo| t@)
}

/// The position of the first occurrence of `c` in `l`, or `l.len()` where
/// there is none.
pub open spec fn find_char(l: Seq<char>, c: char) -> nat
    decreases l.len(),
{
    if l.len() == 0 {
        0
    } else if l[0] == c {
        0
    } else {
        1 + find_char(l.drop_first(), c)
    }
}

/// A prefix free of `c`, ended by `c` or by the text's end, pins
/// `find_char` down.
pub proof fn lemma_find_char_at(l: Seq<char>, c: char, k: int)
    requires
        0 <= k <= l.len(),
        forall|j: int| 0 <= j < k ==> l[j] != c,
        k < l.len() ==> l[k] == c,
    ensures
        find_char(l, c) == k,
    decreases l.len(),
{
    if l.len() > 0 && l[0] != c {
        lemma_find_char_at(l.drop_first(), c, k - 1);
    }
}

/// Reading one store line: the leading token (up to the first space) must
/// be a decimal `i32`; the content is everything after that space, or
/// empty where the line has no space.
pub open spec fn parse_line(l: Seq<char>) -> Option<EntryModel> {
    let k = find_char(l, ' ') as int;
    let tok = l.take(k);
    let content = if k < l.len() {
        l.subrange(k + 1, l.len() as int)
    } else {
        Seq::<char>::empty()
    };
    match parse_i32(tok) {
        Some(v) => Some(EntryModel { index: v, content }),
        None => None,
    }
}

/// `s` split at every newline character.  Always at least one piece: the
/// empty text is one empty line.
pub open spec fn split_nl(s: Seq<char>) -> Seq<Seq<char>>
    decreases s.len(),
{
    let k = find_char(s, '\n') as int;
    if k < s.len() {
        seq![s.take(k)] + split_nl(s.subrange(k + 1, s.len() as int))
    } else {
        seq![s]
    }
}

/// The store text's lines: split at newlines, with one trailing line
/// terminator tolerated, and no lines at all in an empty store.
pub open spec fn line_seqs(s: Seq<char>) -> Seq<Seq<char>> {
    if s.len() == 0 {
        Seq::<Seq<char>>::empty()
    } else if s.last() == '\n' {
        split_nl(s.drop_last())
    } else {
        split_nl(s)
    }
}

/// Reading a run of lines, in order, failing on the first line that is no
/// entry.
pub open spec fn parse_lines(ls: Seq<Seq<char>>) -> Option<Seq<EntryModel>>
    decreases ls.len(),
{
    if ls.len() == 0 {
        Some(Seq::<EntryModel>::empty())
    } else {
        match parse_line(ls[0]) {
            Some(e) => match parse_lines(ls.drop_first()) {
                Some(rest) => Some(seq![e] + rest),
                None => None,
            },
            None => None,
        }
    }
}

/// Reading the whole store text: every line in file order, or the first
/// failure.
pub open spec fn parse_store(s: Seq<char>) -> Option<Seq<EntryModel>> {
    parse_lines(line_seqs(s))
}

/// Where `find_char` lands: within the text, on an occurrence where there
/// is one, past every position that differs.
proof fn lemma_find_char_bounds(l: Seq<char>, c: char)
    ensures
        find_char(l, c) <= l.len(),
        find_char(l, c) < l.len() ==> l[find_char(l, c) as int] == c,
        forall|j: int| 0 <= j < find_char(l, c) ==> l[j] != c,
    decreases l.len(),
{
    if l.len() > 0 && l[0] != c {
        lemma_find_char_bounds(l.drop_first(), c);
        assert forall|j: int| 0 <= j < find_char(l, c) implies l[j] != c by {
            if j > 0 {
                assert(l.drop_first()[j - 1] == l[j]);
            }
        }
    }
}

/// Text that is empty or newline-terminated, extended by a line free of
/// newlines, splits into the old lines plus that line.
proof fn lemma_split_append(s: Seq<char>, line: Seq<char>)
    requires
        s.len() == 0 || s.last() == '\n',
        forall|i: int| 0 <= i < line.len() ==> line[i] != '\n',
    ensures
        split_nl(s + line) == line_seqs(s).push(line),
    decreases s.len(),
{
    if s.len() == 0 {
        assert(s + line =~= line);
        lemma_find_char_at(line, '\n', line.len() as int);
        assert(split_nl(line) == seq![line]);
        assert(line_seqs(s).push(line) =~= seq![line]);
    } else {
        lemma_find_char_bounds(s, '\n');
        let ks = find_char(s, '\n') as int;
        assert(ks < s.len()) by {
            if ks == s.len() {
                assert(s[s.len() - 1] != '\n');
            }
        }
        let total = s + line;
        assert forall|j: int| 0 <= j < ks implies total[j] != '\n' by {
            assert(total[j] == s[j]);
        }
        lemma_find_char_at(total, '\n', ks);
        assert(split_nl(total) == seq![total.take(ks)] + split_nl(
            total.subrange(ks + 1, total.len() as int),
        ));
        let s2 = s.subrange(ks + 1, s.len() as int);
        assert(total.take(ks) =~= s.take(ks));
        assert(total.subrange(ks + 1, total.len() as int) =~= s2 + line);
        assert(s2.len() == 0 || s2.last() == '\n');
        lemma_split_append(s2, line);
        let d = s.drop_last();
        if ks == s.len() - 1 {
            lemma_find_char_at(d, '\n', d.len() as int);
            assert(split_nl(d) == seq![d]);
            assert(d =~= s.take(ks));
            assert(s2.len() == 0);
            assert(line_seqs(s) == seq![s.take(ks)] + line_seqs(s2));
        } else {
            lemma_find_char_at(d, '\n', ks);
            assert(split_nl(d) == seq![d.take(ks)] + split_nl(
                d.subrange(ks + 1, d.len() as int),
            ));
            assert(d.take(ks) =~= s.take(ks));
            assert(d.subrange(ks + 1, d.len() as int) =~= s2.drop_last());
            assert(s2.len() > 0 && s2.last() == '\n');
            assert(line_seqs(s) == seq![s.take(ks)] + line_seqs(s2));
        }
        assert(seq![s.take(ks)] + line_seqs(s2).push(line) =~= (seq![s.take(ks)] + line_seqs(
            s2,
        )).push(line));
    }
}

/// A store text that is empty or newline-terminated, grown by one
/// newline-terminated line free of newlines itself, has the old lines
/// plus the new one.
pub proof fn lemma_line_seqs_append(s: Seq<char>, line: Seq<char>)
    requires
        s.len() == 0 || s.last() == '\n',
        forall|i: int| 0 <= i < line.len() ==> line[i] != '\n',
    ensures
        line_seqs(s + line + seq!['\n']) == line_seqs(s).push(line),
{
    let grown = s + line + seq!['\n'];
    assert(grown.len() > 0 && grown.last() == '\n');
    assert(grown.drop_last() =~= s + line);
    lemma_split_append(s, line);
}

/// One more line that parses grows the parsed entries by exactly its
/// entry.
pub proof fn lemma_parse_lines_push(
    ls: Seq<Seq<char>>,
    l: Seq<char>,
    es: Seq<EntryModel>,
    e: EntryModel,
)
    requires
        parse_lines(ls) == Some(es),
        parse_line(l) == Some(e),
    ensures
        parse_lines(ls.push(l)) == Some(es.push(e)),
    decreases ls.len(),
{
    if ls.len() == 0 {
        assert(ls.push(l)[0] == l);
        assert(ls.push(l).drop_first() =~= Seq::<Seq<char>>::empty());
        assert(parse_lines(Seq::<Seq<char>>::empty()) == Some(Seq::<EntryModel>::empty()));
        assert(parse_lines(ls.push(l)) == Some(seq![e] + Seq::<EntryModel>::empty()));
        assert(seq![e] + Seq::<EntryModel>::empty() =~= es.push(e));
    } else {
        match (parse_line(ls[0]), parse_lines(ls.drop_first())) {
            (Some(e0), Some(rest0)) => {
                lemma_parse_lines_push(ls.drop_first(), l, rest0, e);
                assert(ls.push(l)[0] == ls[0]);
                assert(ls.push(l).drop_first() =~= ls.drop_first().push(l));
                assert(parse_lines(ls.push(l)) == Some(seq![e0] + rest0.push(e)));
                assert(es == seq![e0] + rest0);
                assert(seq![e0] + rest0.push(e) =~= es.push(e));
            },
            _ => {
                assert(false);
            },
        }
    }
}

impl Todo {
    /// Reads one store line, exactly as [`parse_line`] says; a line whose
    /// leading token is no decimal `i32` is a [`TodoError::ParseError`].
    pub fn new(line: &str) -> (r: Result<Todo, TodoError>)
        ensures
            match r {
                Ok(t) => parse_line(line@) == Some(t@),
                Err(e) => parse_line(line@) is None && e == TodoError::ParseError,
            },
    {
        let n = line.unicode_len();
        let mut j: usize = 0;
        loop
            invariant
                0 <= j <= n,
                n == line@.len(),
                forall|k: int| 0 <= k < j ==> line@[k] != ' ',
            ensures
                0 <= j <= n,
                forall|k: int| 0 <= k < j ==> line@[k] != ' ',
                j < n ==> line@[j as int] == ' ',
            decreases n - j,
        {
            if j >= n {
                break ;
            }
            let c = line.get_char(j);
            if c == ' ' {
                break ;
            }
            j += 1;
        }
        proof {
            lemma_find_char_at(line@, ' ', j as int);
        }
        let tok = line.substring_char(0, j);
        proof {
            assert(tok@ =~= line@.take(j as int));
        }
        match parse_i32_str(tok) {
            None => Err(TodoError::ParseError),
            Some(v) => {
                let content: String = if j < n {
                    line.substring_char(j + 1, n).to_owned()
                } else {
                    String::new()
                };
                Ok(Todo { index: v, content })
            },
        }
    }
}

/// Reads the whole store text, exactly as [`parse_store`] says: every line
/// becomes an entry, in file order, and the first bad line aborts the whole
/// reading with a [`TodoError::ParseError`].
pub fn parse_todos(lines: &str) -> (r: Result<Vec<Todo>, TodoError>)
    ensures
        match r {
            Ok(v) => parse_store(lines@) == Some(models_of(v@)),
            Err(e) => parse_store(lines@) is None && e == TodoError::ParseError,
        },
{
    let n = lines.unicode_len();
    if n == 0 {
        let v: Vec<Todo> = Vec::new();
        proof {
            assert(models_of(v@) =~= Seq::<EntryModel>::empty());
        }
        return Ok(v);
    }
    let last = lines.get_char(n - 1);
    let (t, tn): (&str, usize) = if last == '\n' {
        (lines.substring_char(0, n - 1), n - 1)
    } else {
        (lines, n)
    };
    proof {
        if last == '\n' {
            assert(t@ =~= lines@.drop_last());
        }
        assert(line_seqs(lines@) == split_nl(t@));
        assert(t@.subrange(0, tn as int) =~= t@);
    }
    let mut todos: Vec<Todo> = Vec::new();
    let mut pos: usize = 0;
    proof {
        assert(models_of(todos@) =~= Seq::<EntryModel>::empty());
        assert(forall|rest: Seq<EntryModel>| models_of(todos@) + rest =~= rest);
    }
    loop
        invariant_except_break
            match parse_lines(split_nl(t@.subrange(pos as int, tn as int))) {
                Some(rest) => parse_lines(split_nl(t@)) == Some(models_of(todos@) + rest),
                None => parse_lines(split_nl(t@)) is None,
            },
        invariant
            0 <= pos <= tn,
            tn == t@.len(),
            parse_store(lines@) == parse_lines(split_nl(t@)),
        ensures
            parse_lines(split_nl(t@)) == Some(models_of(todos@)),
        decreases tn - pos,
    {
        let mut j: usize = pos;
        loop
            invariant
                pos <= j <= tn,
                tn == t@.len(),
                forall|k: int| pos <= k < j ==> t@[k] != '\n',
            ensures
                pos <= j <= tn,
                forall|k: int| pos <= k < j ==> t@[k] != '\n',
                j < tn ==> t@[j as int] == '\n',
            decreases tn - j,
        {
            if j >= tn {
                break ;
            }
            if t.get_char(j) == '\n' {
                break ;
            }
            j += 1;
        }
        let ghost u = t@.subrange(pos as int, tn as int);
        let ghost k: int = j - pos;
        proof {
            assert forall|m: int| 0 <= m < k implies u[m] != '\n' by {
                assert(u[m] == t@[pos + m]);
            }
            lemma_find_char_at(u, '\n', k);
        }
        let line = t.substring_char(pos, j);
        proof {
            assert(line@ =~= u.take(k));
        }
        match Todo::new(line) {
            Err(_) => {
                proof {
                    if k < u.len() {
                        assert(split_nl(u) == seq![u.take(k)] + split_nl(
                            u.subrange(k + 1, u.len() as int),
                        ));
                        assert(split_nl(u)[0] == u.take(k));
                    } else {
                        assert(split_nl(u) == seq![u]);
                        assert(u.take(k) =~= u);
                    }
                    assert(parse_line(split_nl(u)[0]) is None);
                    assert(parse_lines(split_nl(u)) is None);
                }
                return Err(TodoError::ParseError);
            },
            Ok(todo) => {
                let ghost e = todo@;
                let ghost before = todos@;
                todos.push(todo);
                proof {
                    assert(models_of(todos@) =~= models_of(before).push(e));
                }
                if j >= tn {
                    proof {
                        assert(k == u.len());
                        assert(split_nl(u) == seq![u]);
                        assert(u.take(k) =~= u);
                        assert(parse_line(u) == Some(e));
                        assert(seq![u].drop_first() =~= Seq::<Seq<char>>::empty());
                        assert(parse_lines(seq![u].drop_first()) == Some(
                            Seq::<EntryModel>::empty(),
                        ));
                        assert(parse_lines(split_nl(u)) == Some(
                            seq![e] + Seq::<EntryModel>::empty(),
                        ));
                        assert(models_of(before) + (seq![e] + Seq::<EntryModel>::empty())
                            =~= models_of(todos@));
                    }
                    break ;
                }
                pos = j + 1;
                proof {
                    let u2 = t@.subrange(pos as int, tn as int);
                    assert(k < u.len());
                    assert(u.subrange(k + 1, u.len() as int) =~= u2);
                    let ls = split_nl(u);
                    assert(ls == seq![u.take(k)] + split_nl(u2));
                    assert(ls[0] == u.take(k));
                    assert(parse_line(ls[0]) == Some(e));
                    assert(ls.drop_first() =~= split_nl(u2));
                    match parse_lines(split_nl(u2)) {
                        Some(r2) => {
                            assert(parse_lines(ls) == Some(seq![e] + r2));
                            assert(models_of(before) + (seq![e] + r2) =~= models_of(todos@) + r2);
                        },
                        None => {
                            assert(parse_lines(ls) is None);
                        },
                    }
                }
            },
        }
    }
    Ok(todos)
}

} // verus!
