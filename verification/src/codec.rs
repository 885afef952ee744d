//! The persisted text format: one task per line, the three fields
//! separated by `|`, the completion flag written as `true` or `false`.
//! Reading accepts exactly the lines that split into three fields and
//! silently skips the rest; a field that is not a numeral or not a
//! boolean falls back to `0` or `false` rather than rejecting the line.

use vstd::prelude::*;
use vstd::string::StrSliceExecFns;
use vstd::string::StringExecFns;
use crate::numeral::dec_rep;
use crate::numeral::is_digit;
use crate::numeral::lemma_dec_rep_digits;
use crate::numeral::lemma_dec_value_of_rep;
use crate::numeral::parse_usize;
use crate::numeral::parse_usize_spec;
use crate::numeral::usize_to_string;
use crate::task::Task;
use crate::task::TaskView;

verus! {

/// The character `c` does not occur in `s`.
pub open spec fn has_no(s: Seq<char>, c: char) -> bool {
    forall|i: int| 0 <= i < s.len() ==> #[trigger] s[i] != c
}

/// Split `s` at every occurrence of `d`, keeping empty pieces, as
/// splitting a string on a delimiter does: the result always has one
/// more piece than `s` has delimiters.
pub open spec fn split_on(s: Seq<char>, d: char) -> Seq<Seq<char>>
    decreases s.len(),
{
    if s.len() == 0 {
        seq![Seq::<char>::empty()]
    } else if s[0] == d {
        seq![Seq::<char>::empty()] + split_on(s.drop_first(), d)
    } else {
        let rest = split_on(s.drop_first(), d);
        seq![seq![s[0]] + rest[0]] + rest.drop_first()
    }
}

/// A split result is never empty.
pub proof fn lemma_split_nonempty(s: Seq<char>, d: char)
    ensures
        split_on(s, d).len() >= 1,
    decreases s.len(),
{
    if s.len() != 0 {
        lemma_split_nonempty(s.drop_first(), d)
    }
}

/// Splitting a delimiter-free string yields that one piece.
pub proof fn lemma_split_no_delim(s: Seq<char>, d: char)
    requires
        has_no(s, d),
    ensures
        split_on(s, d) == seq![s],
    decreases s.len(),
{
    if s.len() == 0 {
        assert(s =~= Seq::<char>::empty());
        assert(split_on(s, d) =~~= seq![s]);
    } else {
        assert(s[0] != d);
        assert(has_no(s.drop_first(), d)) by {
            assert forall|i: int| 0 <= i < s.drop_first().len() implies #[trigger] s.drop_first()[i]
                != d by {
                assert(s.drop_first()[i] == s[i + 1]);
            }
        }
        lemma_split_no_delim(s.drop_first(), d);
        assert(seq![s[0]] + split_on(s.drop_first(), d)[0] =~= s);
        assert(split_on(s, d) =~~= seq![s]);
    }
}

/// Splitting at the first delimiter: with no delimiter in `x`,
/// `x|y` splits into `x` followed by the pieces of `y`.
pub proof fn lemma_split_first(x: Seq<char>, y: Seq<char>, d: char)
    requires
        has_no(x, d),
    ensures
        split_on(x + seq![d] + y, d) == seq![x] + split_on(y, d),
    decreases x.len(),
{
    let s = x + seq![d] + y;
    if x.len() == 0 {
        assert(s[0] == d);
        assert(s.drop_first() =~= y);
        assert(split_on(s, d) =~~= seq![x] + split_on(y, d));
    } else {
        assert(s[0] == x[0]);
        assert(s[0] != d);
        assert(has_no(x.drop_first(), d)) by {
            assert forall|i: int| 0 <= i < x.drop_first().len() implies #[trigger] x.drop_first()[i]
                != d by {
                assert(x.drop_first()[i] == x[i + 1]);
            }
        }
        assert(s.drop_first() =~= x.drop_first() + seq![d] + y);
        lemma_split_first(x.drop_first(), y, d);
        let rest = split_on(s.drop_first(), d);
        assert(rest == seq![x.drop_first()] + split_on(y, d));
        assert(rest[0] == x.drop_first());
        assert(seq![s[0]] + rest[0] =~= x);
        assert(rest.drop_first() =~= split_on(y, d));
        assert(split_on(s, d) =~~= seq![x] + split_on(y, d));
    }
}

/// The views of a sequence of owned strings.
pub open spec fn views_of(parts: Seq<String>) -> Seq<Seq<char>> {
    parts.map_values(|p: String| p@)
}

/// Split a string at every occurrence of a delimiter character,
/// keeping empty pieces.
pub fn split_str(s: &str, d: char) -> (parts: Vec<String>)
    ensures
        views_of(parts@) == split_on(s@, d),
{
    let len = s.unicode_len();
    let mut parts: Vec<String> = Vec::new();
    let mut start: usize = 0;
    let mut i: usize = 0;
    proof {
        assert(views_of(parts@) =~= Seq::<Seq<char>>::empty());
        assert(s@.subrange(0, len as int) =~= s@);
        assert(views_of(parts@) + split_on(s@, d) =~= split_on(s@, d));
        assert(s@.subrange(0, 0) =~= Seq::<char>::empty());
    }
    while i < len
        invariant
            0 <= start <= i <= len,
            len == s@.len(),
            has_no(s@.subrange(start as int, i as int), d),
            views_of(parts@) + split_on(s@.subrange(start as int, len as int), d) == split_on(
                s@,
                d,
            ),
        decreases len - i,
    {
        let c = s.get_char(i);
        if c == d {
            let piece = s.substring_char(start, i);
            let ghost old_parts = parts@;
            parts.push(piece.to_owned());
            proof {
                let x = s@.subrange(start as int, i as int);
                let y = s@.subrange(i as int + 1, len as int);
                assert(s@.subrange(start as int, len as int) =~= x + seq![d] + y);
                lemma_split_first(x, y, d);
                assert(views_of(parts@) =~= views_of(old_parts).push(x));
                assert(views_of(parts@) + split_on(y, d) =~= views_of(old_parts) + (seq![x]
                    + split_on(y, d)));
                assert(views_of(parts@) + split_on(y, d) =~= split_on(s@, d));
                assert(s@.subrange(i as int + 1, i as int + 1) =~= Seq::<char>::empty());
            }
            start = i + 1;
        } else {
            proof {
                assert(s@.subrange(start as int, i as int + 1) =~= s@.subrange(
                    start as int,
                    i as int,
                ).push(s@[i as int]));
                assert forall|j: int| 0 <= j < i + 1 - start implies #[trigger] s@.subrange(
                    start as int,
                    i as int + 1,
                )[j] != d by {
                    if j < i - start {
                        assert(s@.subrange(start as int, i as int)[j] != d);
                    }
                }
            }
        }
        i = i + 1;
    }
    let tail = s.substring_char(start, len);
    let ghost old_parts = parts@;
    parts.push(tail.to_owned());
    proof {
        lemma_split_no_delim(s@.subrange(start as int, len as int), d);
        assert(views_of(parts@) =~= views_of(old_parts).push(s@.subrange(start as int, len as int)));
        assert(views_of(parts@) =~= views_of(old_parts) + split_on(
            s@.subrange(start as int, len as int),
            d,
        ));
        assert(views_of(parts@) =~= split_on(s@, d));
    }
    parts
}

/// The persisted text of a completion flag.
pub open spec fn bool_rep(b: bool) -> Seq<char> {
    if b {
        "true"@
    } else {
        "false"@
    }
}

/// What reading a completion field yields: `true` exactly on the text
/// `true`, and `false` on everything else.
pub open spec fn parse_bool_spec(s: Seq<char>) -> bool {
    s == "true"@
}

/// Read a completion field; anything but `true` yields `false`.
pub fn parse_bool(s: &str) -> (b: bool)
    ensures
        b == parse_bool_spec(s@),
{
    let lhs = s.to_owned();
    let rhs = "true".to_owned();
    lhs == rhs
}

/// The persisted line of one task: `id|description|completed`.
pub open spec fn render_record(t: TaskView) -> Seq<char> {
    dec_rep(t.id) + seq!['|'] + t.description + seq!['|'] + bool_rep(t.completed)
}

/// What reading one line yields: a task when the line splits on `|`
/// into exactly three fields, nothing otherwise. A bad id field reads
/// as 0 and a bad completion field as `false`.
pub open spec fn parse_record(line: Seq<char>) -> Option<TaskView> {
    let parts = split_on(line, '|');
    if parts.len() == 3 {
        Some(
            TaskView {
                id: parse_usize_spec(parts[0]),
                description: parts[1],
                completed: parse_bool_spec(parts[2]),
            },
        )
    } else {
        None
    }
}

/// Render one task as its persisted line.
pub fn render_record_line(t: &Task) -> (line: String)
    ensures
        line@ == render_record(t@),
{
    let mut line = usize_to_string(t.id);
    line.append("|");
    line.append(t.description.as_str());
    line.append("|");
    if t.completed {
        line.append("true");
    } else {
        line.append("false");
    }
    proof {
        reveal_strlit("|");
        assert("|"@ =~= seq!['|']);
        assert(line@ =~= render_record(t@));
    }
    line
}

/// Read one persisted line; a line without exactly three fields
/// yields nothing.
pub fn parse_record_line(line: &str) -> (r: Option<Task>)
    ensures
        match r {
            Some(t) => parse_record(line@) == Some(t@),
            None => parse_record(line@) is None,
        },
{
    let parts = split_str(line, '|');
    proof {
        assert(views_of(parts@).len() == parts@.len());
    }
    if parts.len() == 3 {
        let id = parse_usize(parts[0].as_str());
        let description = parts[1].clone();
        let completed = parse_bool(parts[2].as_str());
        proof {
            assert(views_of(parts@)[0] == parts@[0]@);
            assert(views_of(parts@)[1] == parts@[1]@);
            assert(views_of(parts@)[2] == parts@[2]@);
        }
        Some(Task { id, description, completed })
    } else {
        None
    }
}

/// The digits of a numeral are neither the field nor the line delimiter.
proof fn lemma_numeral_clean(n: nat)
    ensures
        has_no(dec_rep(n), '|'),
        has_no(dec_rep(n), '\n'),
{
    lemma_dec_rep_digits(n);
    assert forall|i: int| 0 <= i < dec_rep(n).len() implies #[trigger] dec_rep(n)[i] != '|'
        && dec_rep(n)[i] != '\n' by {
        assert(is_digit(dec_rep(n)[i]));
    }
}

/// The completion field holds neither delimiter either.
proof fn lemma_bool_rep_clean(b: bool)
    ensures
        has_no(bool_rep(b), '|'),
        has_no(bool_rep(b), '\n'),
        parse_bool_spec(bool_rep(b)) == b,
{
    reveal_strlit("true");
    reveal_strlit("false");
    assert("true"@.len() == 4);
    assert("false"@.len() == 5);
}

/// Reading back the rendered line of a task yields that task, as long
/// as its description holds no field delimiter and its id is a machine
/// integer.
pub proof fn lemma_record_round_trip(t: TaskView)
    requires
        has_no(t.description, '|'),
        t.id <= usize::MAX,
    ensures
        parse_record(render_record(t)) == Some(t),
{
    let line = render_record(t);
    let x = dec_rep(t.id);
    let y = t.description + seq!['|'] + bool_rep(t.completed);
    lemma_numeral_clean(t.id);
    lemma_bool_rep_clean(t.completed);
    assert(line =~= x + seq!['|'] + y);
    lemma_split_first(x, y, '|');
    lemma_split_first(t.description, bool_rep(t.completed), '|');
    lemma_split_no_delim(bool_rep(t.completed), '|');
    let parts = split_on(line, '|');
    assert(parts =~~= seq![x, t.description, bool_rep(t.completed)]);
    lemma_dec_rep_digits(t.id);
    lemma_dec_value_of_rep(t.id);
    assert(parse_usize_spec(parts[0]) == t.id);
    assert(parse_record(line) == Some(t));
}

/// A rendered line holds no line delimiter, as long as the description
/// holds none.
pub proof fn lemma_record_no_newline(t: TaskView)
    requires
        has_no(t.description, '\n'),
    ensures
        has_no(render_record(t), '\n'),
{
    lemma_numeral_clean(t.id);
    lemma_bool_rep_clean(t.completed);
    let line = render_record(t);
    assert forall|i: int| 0 <= i < line.len() implies #[trigger] line[i] != '\n' by {
        let a = dec_rep(t.id);
        let b = t.description;
        let c = bool_rep(t.completed);
        if i < a.len() {
            assert(line[i] == a[i]);
        } else if i == a.len() {
            assert(line[i] == '|');
        } else if i <= a.len() + b.len() {
            assert(line[i] == b[i - a.len() - 1]);
        } else if i == a.len() + 1 + b.len() {
            assert(line[i] == '|');
        } else {
            assert(line[i] == c[i - (a.len() + b.len() + 2)]);
        }
    }
}

/// The persisted text of a whole store: one line per task, each
/// closed by a newline.
pub open spec fn file_rep(tasks: Seq<TaskView>) -> Seq<char>
    decreases tasks.len(),
{
    if tasks.len() == 0 {
        Seq::<char>::empty()
    } else {
        render_record(tasks.first()) + seq!['\n'] + file_rep(tasks.drop_first())
    }
}

/// The tasks read from a sequence of lines: each line that parses
/// contributes a task, in order; the rest are skipped.
pub open spec fn parse_lines(lines: Seq<Seq<char>>) -> Seq<TaskView>
    decreases lines.len(),
{
    if lines.len() == 0 {
        Seq::<TaskView>::empty()
    } else {
        let rest = parse_lines(lines.drop_first());
        match parse_record(lines.first()) {
            Some(t) => seq![t] + rest,
            None => rest,
        }
    }
}

/// The tasks read from a persisted text: its lines are the pieces
/// between newlines, and each valid line yields one task.
pub open spec fn parse_file(content: Seq<char>) -> Seq<TaskView> {
    parse_lines(split_on(content, '\n'))
}

/// An empty text holds no tasks.
pub proof fn lemma_parse_file_empty()
    ensures
        parse_file(Seq::<char>::empty()) == Seq::<TaskView>::empty(),
{
    let lines = split_on(Seq::<char>::empty(), '\n');
    assert(lines =~~= seq![Seq::<char>::empty()]);
    assert(lines.drop_first() =~= Seq::<Seq<char>>::empty());
    assert(split_on(Seq::<char>::empty(), '|') =~~= seq![Seq::<char>::empty()]);
    assert(parse_record(Seq::<char>::empty()) is None);
    assert(parse_lines(Seq::<Seq<char>>::empty()) == Seq::<TaskView>::empty());
    assert(parse_lines(lines) == Seq::<TaskView>::empty());
}

/// Saving a store and loading the text back yields the same ordered
/// sequence of tasks, as long as no description holds the field
/// delimiter `|` or a line break, and every id is a machine integer.
pub proof fn lemma_file_round_trip(tasks: Seq<TaskView>)
    requires
        forall|i: int| 0 <= i < tasks.len() ==> has_no(#[trigger] tasks[i].description, '|'),
        forall|i: int| 0 <= i < tasks.len() ==> has_no(#[trigger] tasks[i].description, '\n'),
        forall|i: int| 0 <= i < tasks.len() ==> (#[trigger] tasks[i].id) <= usize::MAX,
    ensures
        parse_file(file_rep(tasks)) == tasks,
    decreases tasks.len(),
{
    if tasks.len() == 0 {
        lemma_parse_file_empty();
        assert(file_rep(tasks) =~= Seq::<char>::empty());
        assert(parse_file(file_rep(tasks)) =~= tasks);
    } else {
        let t0 = tasks.first();
        let rest = tasks.drop_first();
        let head_line = render_record(t0);
        let rest_text = file_rep(rest);
        assert(tasks[0] == t0);
        lemma_record_no_newline(t0);
        assert(file_rep(tasks) =~= head_line + seq!['\n'] + rest_text);
        lemma_split_first(head_line, rest_text, '\n');
        let lines = split_on(file_rep(tasks), '\n');
        assert(lines == seq![head_line] + split_on(rest_text, '\n'));
        assert(lines.first() == head_line);
        assert(lines.drop_first() =~= split_on(rest_text, '\n'));
        lemma_record_round_trip(t0);
        assert forall|i: int| 0 <= i < rest.len() implies has_no(
            #[trigger] rest[i].description,
            '|',
        ) && has_no(rest[i].description, '\n') && rest[i].id <= usize::MAX by {
            assert(rest[i] == tasks[i + 1]);
        }
        lemma_file_round_trip(rest);
        lemma_split_nonempty(file_rep(tasks), '\n');
        assert(parse_lines(lines) == seq![t0] + parse_lines(lines.drop_first()));
        assert(parse_file(file_rep(tasks)) =~= tasks);
    }
}

} // verus!
