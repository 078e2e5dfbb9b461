//! Batch plans: a list of moves, checked as a whole before anything is written.

use vstd::prelude::*;
use vstd::string::*;

use crate::decimal::decimal;
use crate::decimal::push_decimal;
use crate::error::missing_source_error;
use crate::error::missing_source_text;
use crate::error::occupied_target_error;
use crate::error::occupied_target_text;
use crate::error::Error;
use crate::fs::apart;
use crate::fs::Fs;
use crate::fs::FsView;
use crate::home::Home;
use crate::home::HomeView;
use crate::order::lemma_sorted;
use crate::order::lemma_sorted_map;
use crate::order::sorted;
use crate::order::stable_sort;
use crate::path::under;
use crate::path::FilePath;
use crate::path::Key;
use crate::scanner::describes;
use crate::scanner::fault_of;
use crate::scanner::has_global;
use crate::scanner::has_project;
use crate::scanner::reports;
use crate::scanner::scan;
use crate::scanner::Fault;
use crate::scanner::ProjectState;
use crate::text::chars_of;
use crate::text::is_space;
use crate::text::lemma_split_concat;
use crate::text::lemma_split_nonempty;
use crate::text::lemma_split_single;
use crate::text::pieces_at;
use crate::text::split;
use crate::text::split_places;
use crate::text::string_of;
use crate::text::whitespace;
use crate::text::within;

verus! {

/// A rejected plan, with every problem that was found.
#[derive(Debug)]
pub struct PlanError {
    problems: Vec<String>,
}

/// The problems, each on a line of its own, indented.
pub open spec fn problem_lines(problems: Seq<String>) -> Seq<char>
    decreases problems.len(),
{
    if problems.len() == 0 {
        Seq::empty()
    } else {
        problem_lines(problems.drop_last()) + ("\n  "@ + problems.last()@)
    }
}

impl PlanError {
    /// The problems, in the order they are reported.
    pub closed spec fn problems(&self) -> Seq<String> {
        self.problems@
    }

    /// The texts of the problems, in the order they are reported.
    pub open spec fn problem_texts(&self) -> Seq<Seq<char>> {
        self.problems().map_values(|p: String| p@)
    }

    pub open spec fn text(&self) -> Seq<char> {
        "plan rejected, "@ + decimal(self.problems().len()) + (if self.problems().len() == 1 {
            " problem:"@
        } else {
            " problems:"@
        }) + problem_lines(self.problems())
    }

    /// The message for a reader.
    pub fn message(&self) -> (r: String)
        ensures
            r@ == self.text(),
    {
        let mut r = "plan rejected, ".to_owned();
        push_decimal(&mut r, self.problems.len());
        if self.problems.len() == 1 {
            r.append(" problem:");
        } else {
            r.append(" problems:");
        }
        let ghost head = r@;
        let mut i: usize = 0;
        assert(r@ =~= head + problem_lines(self.problems@.take(0)));
        while i < self.problems.len()
            invariant
                i <= self.problems@.len(),
                r@ == head + problem_lines(self.problems@.take(i as int)),
            decreases self.problems@.len() - i,
        {
            r.append("\n  ");
            r.append(self.problems[i].as_str());
            i = i + 1;
            proof {
                assert(self.problems@.take(i as int).drop_last() =~= self.problems@.take(i - 1));
                assert(self.problems@.take(i as int).last() == self.problems@[i - 1]);
                assert(r@ =~= head + problem_lines(self.problems@.take(i as int)));
            }
        }
        assert(self.problems@.take(i as int) =~= self.problems@);
        r
    }
}

/// One line of a batch file, its paths as they were written.
#[derive(Debug)]
pub struct RawMove {
    pub source: String,
    pub target: String,
    pub line: usize,
}

/// One project going from a source path to a target path.
#[derive(Debug)]
pub struct Move {
    pub source: FilePath,
    pub target: FilePath,
    /// The line in the batch file, counted from 1; none for a move that was
    /// given as arguments.
    pub line: Option<usize>,
}

/// A plan: the moves of one run.
pub struct BatchPlan {
    pub moves: Vec<Move>,
}

/// What a plan is checked against. A session-only run moves the global session
/// data and leaves both project directories where they are.
pub struct PlanRules {
    pub force: bool,
    pub session_only: bool,
}

/// The lines of a text. A line end at the very end starts no line.
pub open spec fn lines_of(s: Seq<char>) -> Seq<Seq<char>> {
    let pieces = split(s, '\n');
    if pieces.last().len() == 0 {
        pieces.drop_last()
    } else {
        pieces
    }
}

/// `s` without the carriage returns at its end.
pub open spec fn without_returns(s: Seq<char>) -> Seq<char>
    decreases s.len(),
{
    if s.len() > 0 && s.last() == '\r' {
        without_returns(s.drop_last())
    } else {
        s
    }
}

/// Whether a line holds nothing to do: it is blank, or its first visible
/// character is `#`.
pub open spec fn is_skipped(line: Seq<char>) -> bool
    decreases line.len(),
{
    if line.len() == 0 {
        true
    } else if whitespace(line[0]) {
        is_skipped(line.drop_first())
    } else {
        line[0] == '#'
    }
}

/// What a line of a batch file says.
pub enum LineView {
    Skipped,
    Move(Seq<char>, Seq<char>),
    WrongFields,
    EmptyField,
}

pub open spec fn read_line(line: Seq<char>) -> LineView {
    let fields = split(line, '\t');
    if is_skipped(line) {
        LineView::Skipped
    } else if fields.len() != 2 {
        LineView::WrongFields
    } else if fields[0].len() == 0 || fields[1].len() == 0 {
        LineView::EmptyField
    } else {
        LineView::Move(fields[0], fields[1])
    }
}

/// What line `i` of a batch file says.
pub open spec fn line_at(input: Seq<char>, i: int) -> LineView {
    read_line(without_returns(lines_of(input)[i]))
}

/// The moves on the first `n` lines, each with its line number.
pub open spec fn moves_on(input: Seq<char>, n: int) -> Seq<(Seq<char>, Seq<char>, int)>
    decreases n,
{
    if n <= 0 {
        Seq::empty()
    } else {
        match line_at(input, n - 1) {
            LineView::Move(source, target) => moves_on(input, n - 1).push((source, target, n)),
            _ => moves_on(input, n - 1),
        }
    }
}

/// Whether the first `n` lines can all be read.
pub open spec fn readable_to(input: Seq<char>, n: int) -> bool {
    forall|i: int|
        0 <= i < n ==> (#[trigger] line_at(input, i) is Skipped || line_at(input, i) is Move)
}

pub open spec fn raw_view(moves: Seq<RawMove>) -> Seq<(Seq<char>, Seq<char>, int)> {
    moves.map_values(|m: RawMove| (m.source@, m.target@, m.line as int))
}

/// Whether a line holds nothing to do.
fn skips(line: &Vec<char>) -> (r: bool)
    ensures
        r == is_skipped(line@),
{
    let n: usize = line.len();
    let mut i: usize = 0;
    assert(line@.skip(0) =~= line@);
    while i < n
        invariant
            n == line@.len(),
            i <= n,
            is_skipped(line@) == is_skipped(line@.skip(i as int)),
        decreases n - i,
    {
        if !is_space(line[i]) {
            return line[i] == '#';
        }
        assert(line@.skip(i as int).drop_first() =~= line@.skip(i + 1));
        i = i + 1;
    }
    true
}

/// The characters between two places, without the carriage returns at the end.
fn line_text(input: &Vec<char>, from: usize, to: usize) -> (r: Vec<char>)
    requires
        from <= to <= input@.len(),
    ensures
        r@ == without_returns(input@.subrange(from as int, to as int)),
{
    let mut end: usize = to;
    while end > from && input[end - 1] == '\r'
        invariant
            from <= end <= to <= input@.len(),
            without_returns(input@.subrange(from as int, to as int)) == without_returns(
                input@.subrange(from as int, end as int),
            ),
        decreases end,
    {
        proof {
            let s = input@.subrange(from as int, end as int);
            assert(s.drop_last() =~= input@.subrange(from as int, end - 1));
            assert(s.last() == '\r');
        }
        end = end - 1;
    }
    proof {
        let s = input@.subrange(from as int, end as int);
        if s.len() > 0 {
            assert(s.last() == input@[end - 1]);
        }
    }
    crate::path::copy_range(input, from, end)
}

/// Reads `source<TAB>target` lines. Blank lines and `#` comments are skipped;
/// any other line must hold exactly two fields, neither of them empty. A stray
/// tab is refused: a path may hold a tab, so taking the first two fields could
/// move the wrong thing.
pub fn parse(input: &str) -> (r: Result<Vec<RawMove>, Error>)
    ensures
        match r {
            Ok(moves) => {
                &&& readable_to(input@, lines_of(input@).len() as int)
                &&& raw_view(moves@) == moves_on(input@, lines_of(input@).len() as int)
            },
            Err(Error::BatchFields(line, text)) => {
                &&& 0 < line <= lines_of(input@).len()
                &&& readable_to(input@, line - 1)
                &&& line_at(input@, line - 1) is WrongFields
                &&& text@ == without_returns(lines_of(input@)[line - 1])
            },
            Err(Error::BatchEmptyField(line)) => {
                &&& 0 < line <= lines_of(input@).len()
                &&& readable_to(input@, line - 1)
                &&& line_at(input@, line - 1) is EmptyField
            },
            Err(_) => false,
        },
{
    let chars = chars_of(input);
    let places = split_places(&chars, '\n');
    let ghost pieces = split(input@, '\n');
    proof {
        lemma_split_nonempty(input@, '\n');
        assert(pieces_at(chars@, places@).len() == places@.len());
    }
    let last = places[places.len() - 1];
    assert(pieces.last() == chars@.subrange(last.0 as int, last.1 as int));
    let count: usize = if last.0 == last.1 {
        places.len() - 1
    } else {
        places.len()
    };
    assert(count == lines_of(input@).len());
    let mut moves: Vec<RawMove> = Vec::new();
    let mut i: usize = 0;
    assert(raw_view(moves@) =~= moves_on(input@, 0));
    while i < count
        invariant
            chars@ == input@,
            within(chars@, places@),
            pieces_at(chars@, places@) == split(input@, '\n'),
            pieces_at(chars@, places@).len() == places@.len(),
            count == lines_of(input@).len(),
            count <= places@.len(),
            i <= count,
            readable_to(input@, i as int),
            raw_view(moves@) == moves_on(input@, i as int),
        decreases count - i,
    {
        let (from, to) = places[i];
        proof {
            assert(pieces_at(chars@, places@)[i as int] == chars@.subrange(from as int, to as int));
            assert(lines_of(input@)[i as int] == chars@.subrange(from as int, to as int));
        }
        let text = line_text(&chars, from, to);
        let ghost line = line_at(input@, i as int);
        if !skips(&text) {
            let fields = split_places(&text, '\t');
            assert(pieces_at(text@, fields@).len() == fields@.len());
            if fields.len() != 2 {
                assert(text@.subrange(0, text@.len() as int) =~= text@);
                return Err(Error::BatchFields(i + 1, string_of(&text, 0, text.len())));
            }
            let (a, b) = fields[0];
            let (c, d) = fields[1];
            proof {
                assert(pieces_at(text@, fields@)[0] == text@.subrange(a as int, b as int));
                assert(pieces_at(text@, fields@)[1] == text@.subrange(c as int, d as int));
            }
            if a == b || c == d {
                return Err(Error::BatchEmptyField(i + 1));
            }
            let ghost before = moves@;
            moves.push(
                RawMove {
                    source: string_of(&text, a, b),
                    target: string_of(&text, c, d),
                    line: i + 1,
                },
            );
            assert(raw_view(moves@) =~= raw_view(before).push(
                (text@.subrange(a as int, b as int), text@.subrange(c as int, d as int), i + 1),
            ));
        }
        i = i + 1;
    }
    Ok(moves)
}

/// Lines put one below the other, each with its line end.
pub open spec fn joined_lines(lines: Seq<Seq<char>>) -> Seq<char>
    decreases lines.len(),
{
    if lines.len() == 0 {
        Seq::empty()
    } else {
        lines.first().push('\n') + joined_lines(lines.drop_first())
    }
}

/// Whether a line says nothing: it is blank or a comment.
pub open spec fn says_nothing(line: Seq<char>) -> bool {
    !line.contains('\n') && read_line(without_returns(line)) is Skipped
}

/// The moves as they are read when `k` lines stand above them.
pub open spec fn shifted(
    moves: Seq<(Seq<char>, Seq<char>, int)>,
    k: int,
) -> Seq<(Seq<char>, Seq<char>, int)> {
    moves.map_values(|m: (Seq<char>, Seq<char>, int)| (m.0, m.1, m.2 + k))
}

/// Lines put above a text are the first lines of the whole.
proof fn lemma_lines_above(above: Seq<Seq<char>>, input: Seq<char>)
    requires
        forall|i: int| 0 <= i < above.len() ==> says_nothing(#[trigger] above[i]),
    ensures
        lines_of(joined_lines(above) + input) == above + lines_of(input),
    decreases above.len(),
{
    lemma_split_nonempty(input, '\n');
    if above.len() == 0 {
        assert(joined_lines(above) + input =~= input);
        assert(above + lines_of(input) =~= lines_of(input));
    } else {
        let first = above.first();
        let rest = above.drop_first();
        assert(says_nothing(above[0]));
        assert forall|i: int| 0 <= i < rest.len() implies says_nothing(#[trigger] rest[i]) by {
            assert(rest[i] == above[i + 1]);
        }
        lemma_lines_above(rest, input);
        let below = joined_lines(rest) + input;
        assert(joined_lines(above) + input =~= first.push('\n') + below);
        lemma_split_concat(first, '\n', below);
        lemma_split_single(first, '\n');
        lemma_split_nonempty(below, '\n');
        assert(lines_of(first.push('\n') + below) =~= seq![first] + lines_of(below));
        assert(seq![first] + (rest + lines_of(input)) =~= above + lines_of(input));
    }
}

proof fn lemma_moves_below(above: Seq<Seq<char>>, input: Seq<char>, n: int)
    requires
        forall|i: int| 0 <= i < above.len() ==> says_nothing(#[trigger] above[i]),
        0 <= n <= lines_of(input).len(),
    ensures
        readable_to(joined_lines(above) + input, above.len() + n) == readable_to(input, n),
        moves_on(joined_lines(above) + input, above.len() + n) == shifted(
            moves_on(input, n),
            above.len() as int,
        ),
    decreases above.len() + n,
{
    let whole = joined_lines(above) + input;
    let k = above.len() as int;
    lemma_lines_above(above, input);
    assert forall|i: int| 0 <= i < k implies #[trigger] line_at(whole, i) is Skipped by {
        assert(lines_of(whole)[i] == above[i]);
        assert(says_nothing(above[i]));
    }
    assert forall|i: int| 0 <= i < n implies #[trigger] line_at(input, i) == line_at(
        whole,
        k + i,
    ) by {
        assert(lines_of(whole)[k + i] == lines_of(input)[i]);
    }
    if readable_to(input, n) {
        assert forall|i: int| 0 <= i < k + n implies (#[trigger] line_at(whole, i) is Skipped
            || line_at(whole, i) is Move) by {
            if i >= k {
                assert(line_at(input, i - k) == line_at(whole, k + (i - k)));
            }
        }
    }
    if readable_to(whole, k + n) {
        assert forall|i: int| 0 <= i < n implies (#[trigger] line_at(input, i) is Skipped
            || line_at(input, i) is Move) by {
            assert(line_at(input, i) == line_at(whole, k + i));
        }
    }
    if n > 0 {
        lemma_moves_below(above, input, n - 1);
        assert(line_at(input, n - 1) == line_at(whole, k + (n - 1)));
        assert(moves_on(whole, k + n) =~= shifted(moves_on(input, n), k));
    } else if k > 0 {
        lemma_nothing_above(whole, k);
        assert(moves_on(whole, k) =~= shifted(moves_on(input, 0), k));
    } else {
        assert(moves_on(whole, 0) =~= shifted(moves_on(input, 0), 0));
    }
}

proof fn lemma_nothing_above(whole: Seq<char>, n: int)
    requires
        forall|i: int| 0 <= i < n ==> #[trigger] line_at(whole, i) is Skipped,
    ensures
        moves_on(whole, n) == Seq::<(Seq<char>, Seq<char>, int)>::empty(),
    decreases n,
{
    if n > 0 {
        assert(line_at(whole, n - 1) is Skipped);
        lemma_nothing_above(whole, n - 1);
    }
}

/// Blank lines and comments above a batch file change nothing but the line
/// numbers: the same moves are read, in the same order, each from as many lines
/// further down as were put above; and a file that was refused is still
/// refused.
pub proof fn law_comments_above_only_shift(above: Seq<Seq<char>>, input: Seq<char>)
    requires
        forall|i: int| 0 <= i < above.len() ==> says_nothing(#[trigger] above[i]),
    ensures
        ({
            let whole = joined_lines(above) + input;
            let n = lines_of(input).len() as int;
            let m = lines_of(whole).len() as int;
            &&& m == above.len() + n
            &&& readable_to(whole, m) == readable_to(input, n)
            &&& moves_on(whole, m) == shifted(moves_on(input, n), above.len() as int)
        }),
{
    lemma_lines_above(above, input);
    lemma_moves_below(above, input, lines_of(input).len() as int);
}

/// A text with a carriage return in front of each line end.
pub open spec fn with_returns(s: Seq<char>) -> Seq<char>
    decreases s.len(),
{
    if s.len() == 0 {
        s
    } else if s.last() == '\n' {
        with_returns(s.drop_last()).push('\r').push('\n')
    } else {
        with_returns(s.drop_last()).push(s.last())
    }
}

proof fn lemma_returned_pieces(s: Seq<char>)
    ensures
        ({
            let p = split(s, '\n');
            let q = split(with_returns(s), '\n');
            &&& p.len() == q.len() > 0
            &&& q.last() == p.last()
            &&& forall|i: int| 0 <= i < p.len() - 1 ==> q[i] == #[trigger] p[i].push('\r')
        }),
    decreases s.len(),
{
    if s.len() > 0 {
        let init = s.drop_last();
        let r = with_returns(init);
        lemma_returned_pieces(init);
        if s.last() == '\n' {
            assert(r.push('\r').drop_last() =~= r);
            assert(r.push('\r').push('\n').drop_last() =~= r.push('\r'));
            let q = split(r, '\n');
            let ended = split(r.push('\r'), '\n');
            assert(ended =~= q.update(q.len() - 1, q.last().push('\r')));
            let whole = split(with_returns(s), '\n');
            assert(whole =~= ended.push(Seq::<char>::empty()));
            let p = split(s, '\n');
            assert(p =~= split(init, '\n').push(Seq::<char>::empty()));
            assert forall|i: int| 0 <= i < p.len() - 1 implies whole[i] == #[trigger] p[i].push(
                '\r',
            ) by {
                assert(p[i] == split(init, '\n')[i]);
                if i < p.len() - 2 {
                    assert(q[i] == split(init, '\n')[i].push('\r'));
                }
            }
        } else {
            assert(r.push(s.last()).drop_last() =~= r);
            let p = split(s, '\n');
            let q = split(with_returns(s), '\n');
            assert forall|i: int| 0 <= i < p.len() - 1 implies q[i] == #[trigger] p[i].push(
                '\r',
            ) by {
                assert(split(r, '\n')[i] == split(init, '\n')[i].push('\r'));
            }
        }
    }
}

proof fn lemma_same_moves(a: Seq<char>, b: Seq<char>, n: int)
    requires
        forall|i: int| 0 <= i < n ==> #[trigger] line_at(a, i) == line_at(b, i),
    ensures
        moves_on(a, n) == moves_on(b, n),
    decreases n,
{
    if n > 0 {
        assert(line_at(a, n - 1) == line_at(b, n - 1));
        lemma_same_moves(a, b, n - 1);
    }
}

/// Line ends of the form carriage return and line feed read like plain ones:
/// every line of a batch file says the same, under the same number.
pub proof fn law_line_ends_read_alike(input: Seq<char>)
    ensures
        ({
            let n = lines_of(input).len() as int;
            &&& lines_of(with_returns(input)).len() == n
            &&& forall|i: int|
                0 <= i < n ==> without_returns(#[trigger] lines_of(with_returns(input))[i])
                    == without_returns(lines_of(input)[i])
            &&& readable_to(with_returns(input), n) == readable_to(input, n)
            &&& moves_on(with_returns(input), n) == moves_on(input, n)
        }),
{
    let whole = with_returns(input);
    let n = lines_of(input).len() as int;
    let p = split(input, '\n');
    let q = split(whole, '\n');
    lemma_returned_pieces(input);
    assert forall|i: int| 0 <= i < n implies without_returns(#[trigger] lines_of(whole)[i])
        == without_returns(lines_of(input)[i]) by {
        if i < p.len() - 1 {
            assert(q[i] == p[i].push('\r'));
            assert(p[i].push('\r').drop_last() =~= p[i]);
        }
    }
    assert forall|i: int| 0 <= i < n implies #[trigger] line_at(whole, i) == line_at(input, i) by {
        assert(without_returns(lines_of(whole)[i]) == without_returns(lines_of(input)[i]));
    }
    if readable_to(whole, n) {
        assert forall|i: int| 0 <= i < n implies (#[trigger] line_at(input, i) is Skipped
            || line_at(input, i) is Move) by {
            assert(line_at(whole, i) == line_at(input, i));
        }
    }
    lemma_same_moves(whole, input, n);
}

/// A problem of a plan: the line it is reported under, and what it is.
pub type Problem = (Option<usize>, Seq<char>);

struct Violation {
    line: Option<usize>,
    message: String,
}

impl View for Violation {
    type V = Problem;

    closed spec fn view(&self) -> Problem {
        (self.line, self.message@)
    }
}

impl Violation {
    fn new(line: Option<usize>, message: String) -> (r: Self)
        ensures
            r@ == (line, message@),
    {
        Violation { line, message }
    }
}

impl Move {
    /// How another move's problem points at this one.
    pub open spec fn place(&self) -> Seq<char> {
        match self.line {
            Some(n) => "line "@ + decimal(n as nat),
            None => self.source@,
        }
    }

    /// How to point at this move in the message of another.
    fn locator(&self) -> (r: String)
        ensures
            r@ == self.place(),
    {
        match self.line {
            Some(n) => {
                let mut r = "line ".to_owned();
                push_decimal(&mut r, n);
                r
            },
            None => self.source.as_str().to_owned(),
        }
    }
}

/// The first of the first `n` moves with the source `k`.
pub open spec fn first_source(moves: Seq<Move>, k: Key, n: int) -> Option<int>
    decreases n,
{
    if n <= 0 {
        None
    } else {
        match first_source(moves, k, n - 1) {
            Some(j) => Some(j),
            None => if moves[n - 1].source.key() == k {
                Some(n - 1)
            } else {
                None
            },
        }
    }
}

/// The first of the first `n` moves with the target `k`.
pub open spec fn first_target(moves: Seq<Move>, k: Key, n: int) -> Option<int>
    decreases n,
{
    if n <= 0 {
        None
    } else {
        match first_target(moves, k, n - 1) {
            Some(j) => Some(j),
            None => if moves[n - 1].target.key() == k {
                Some(n - 1)
            } else {
                None
            },
        }
    }
}

/// The problems with a path that move `i` uses like an earlier move does.
pub open spec fn repeats_at(moves: Seq<Move>, i: int) -> Seq<Problem> {
    let mv = moves[i];
    (match first_source(moves, mv.source.key(), i) {
        Some(j) => seq![
            (
                mv.line,
                mv.source@ + " is a source twice (first at "@ + moves[j].place() + ")"@,
            ),
        ],
        None => Seq::empty(),
    }) + (match first_target(moves, mv.target.key(), i) {
        Some(j) => seq![
            (mv.line, "two sources map to "@ + mv.target@ + " (also "@ + moves[j].place() + ")"@),
        ],
        None => Seq::empty(),
    })
}

pub open spec fn repeats(moves: Seq<Move>, n: int) -> Seq<Problem>
    decreases n,
{
    if n <= 0 {
        Seq::empty()
    } else {
        repeats(moves, n - 1) + repeats_at(moves, n - 1)
    }
}

/// The problem that move `i` goes where another move starts.
pub open spec fn chain_at(moves: Seq<Move>, i: int) -> Seq<Problem> {
    let mv = moves[i];
    match first_source(moves, mv.target.key(), moves.len() as int) {
        Some(j) if j != i => seq![
            (
                mv.line,
                mv.target@ + " is both a source and a target (chain with "@ + moves[j].place()
                    + ")"@,
            ),
        ],
        _ => Seq::empty(),
    }
}

pub open spec fn chains(moves: Seq<Move>, n: int) -> Seq<Problem>
    decreases n,
{
    if n <= 0 {
        Seq::empty()
    } else {
        chains(moves, n - 1) + chain_at(moves, n - 1)
    }
}

/// Whether one path lies below the other.
pub open spec fn nested(a: Key, b: Key) -> bool {
    a != b && (under(a, b) || under(b, a))
}

/// The problem that a path of one move lies below a path of another.
pub open spec fn crossing(outer: Move, inner: Move) -> Seq<Problem> {
    let line = if inner.line is Some {
        inner.line
    } else {
        outer.line
    };
    let text = " belong to different moves, one inside the other (nesting)"@;
    if nested(outer.source.key(), inner.source.key()) {
        seq![(line, outer.source@ + " and "@ + inner.source@ + text)]
    } else if nested(outer.source.key(), inner.target.key()) {
        seq![(line, outer.source@ + " and "@ + inner.target@ + text)]
    } else if nested(outer.target.key(), inner.source.key()) {
        seq![(line, outer.target@ + " and "@ + inner.source@ + text)]
    } else if nested(outer.target.key(), inner.target.key()) {
        seq![(line, outer.target@ + " and "@ + inner.target@ + text)]
    } else {
        Seq::empty()
    }
}

/// The crossings of move `i` with the moves after it, up to `n`.
pub open spec fn crossings_at(moves: Seq<Move>, i: int, n: int) -> Seq<Problem>
    decreases n - i,
{
    if n <= i + 1 {
        Seq::empty()
    } else {
        crossings_at(moves, i, n - 1) + crossing(moves[i], moves[n - 1])
    }
}

pub open spec fn crossings(moves: Seq<Move>, n: int) -> Seq<Problem>
    decreases n,
{
    if n <= 0 {
        Seq::empty()
    } else {
        crossings(moves, n - 1) + crossings_at(moves, n - 1, moves.len() as int)
    }
}

/// The problems that show without looking at the file system: a path used
/// twice, a chain, two moves nesting one inside the other.
pub open spec fn shape_problems(moves: Seq<Move>) -> Seq<Problem> {
    let n = moves.len() as int;
    repeats(moves, n) + chains(moves, n) + crossings(moves, n)
}

/// Whether the plan's check looks at what is at the target of a move.
pub open spec fn looks_at_target(mv: Move, rules: PlanRules) -> bool {
    !rules.force && !rules.session_only && mv.source.key() != mv.target.key()
}

/// What stands in the way of looking at a move's paths.
pub open spec fn move_fault(v: FsView, mv: Move, home: HomeView, rules: PlanRules) -> Option<
    Fault,
> {
    match fault_of(v, mv.source@, home) {
        Some(fault) => Some(fault),
        None => if looks_at_target(mv, rules) {
            fault_of(v, mv.target@, home)
        } else {
            None
        },
    }
}

/// What stands in the way of looking at the paths of the first `n` moves.
pub open spec fn plan_fault(
    v: FsView,
    moves: Seq<Move>,
    home: HomeView,
    rules: PlanRules,
    n: int,
) -> Option<Fault>
    decreases n,
{
    if n <= 0 {
        None
    } else {
        match plan_fault(v, moves, home, rules, n - 1) {
            Some(fault) => Some(fault),
            None => move_fault(v, moves[n - 1], home, rules),
        }
    }
}

/// `problem` where `holds`, else nothing.
pub open spec fn problem_if(holds: bool, problem: Problem) -> Seq<Problem> {
    if holds {
        seq![problem]
    } else {
        Seq::empty()
    }
}

/// The problems of one move that show on the file system.
pub open spec fn path_problems_of(v: FsView, mv: Move, home: HomeView, rules: PlanRules) -> Seq<
    Problem,
> {
    problem_if(!has_project(v, mv.source@, home), (mv.line, missing_source_text(mv.source@)))
        + problem_if(
        rules.session_only && !has_global(v, mv.source@, home),
        (mv.line, "nothing to move: no global session data for "@ + mv.source@),
    ) + problem_if(
        rules.session_only && mv.source.key() != mv.target.key() && !v.dirs.contains(
            mv.target.key(),
        ),
        (mv.line, "target path does not exist; sessions would be orphaned: "@ + mv.target@),
    ) + problem_if(
        looks_at_target(mv, rules) && has_global(v, mv.target@, home),
        (mv.line, occupied_target_text(mv.target@)),
    )
}

pub open spec fn path_problems(
    v: FsView,
    moves: Seq<Move>,
    home: HomeView,
    rules: PlanRules,
    n: int,
) -> Seq<Problem>
    decreases n,
{
    if n <= 0 {
        Seq::empty()
    } else {
        path_problems(v, moves, home, rules, n - 1) + path_problems_of(
            v,
            moves[n - 1],
            home,
            rules,
        )
    }
}

/// All problems of a plan, in the order they are found.
pub open spec fn plan_problems(
    v: FsView,
    moves: Seq<Move>,
    home: HomeView,
    rules: PlanRules,
) -> Seq<Problem> {
    shape_problems(moves) + path_problems(v, moves, home, rules, moves.len() as int)
}

/// The line a problem is sorted by: those without a line come last.
pub open spec fn line_key(p: Problem) -> usize {
    match p.0 {
        Some(n) => n,
        None => usize::MAX,
    }
}

pub open spec fn by_line() -> spec_fn(Problem, Problem) -> bool {
    |a: Problem, b: Problem| line_key(a) < line_key(b)
}

/// How a problem is reported.
pub open spec fn report_line(p: Problem) -> Seq<char> {
    match p.0 {
        Some(n) => "line "@ + decimal(n as nat) + ": "@ + p.1,
        None => p.1,
    }
}

/// What a rejected plan reports: its problems in the order of their lines.
pub open spec fn reported(problems: Seq<Problem>) -> Seq<Seq<char>> {
    sorted(problems, by_line()).map_values(|p: Problem| report_line(p))
}

spec fn views(v: Seq<Violation>) -> Seq<Problem> {
    v.map_values(|x: Violation| x@)
}

proof fn lemma_views_push(v: Seq<Violation>, x: Violation)
    ensures
        views(v.push(x)) == views(v) + seq![x@],
{
    assert(views(v.push(x)) =~= views(v) + seq![x@]);
}

/// `a`, then `b`, then further parts, as one text.
fn concat5(a: &str, b: &str, c: &str, d: &str, e: &str) -> (r: String)
    ensures
        r@ == a@ + b@ + c@ + d@ + e@,
{
    let mut r = a.to_owned();
    r.append(b);
    r.append(c);
    r.append(d);
    r.append(e);
    r
}

/// Whether one path lies below the other.
fn nests(a: &FilePath, b: &FilePath) -> (r: bool)
    ensures
        r == nested(a.key(), b.key()),
{
    !a.same(b) && (a.starts_with(b) || b.starts_with(a))
}

impl BatchPlan {
    /// The first of the first `n` moves with the given source.
    fn find_source(&self, path: &FilePath, n: usize) -> (r: Option<usize>)
        requires
            n <= self.moves@.len(),
        ensures
            match r {
                Some(j) => j < n && first_source(self.moves@, path.key(), n as int) == Some(
                    j as int,
                ),
                None => first_source(self.moves@, path.key(), n as int) is None,
            },
    {
        let mut i: usize = 0;
        while i < n
            invariant
                n <= self.moves@.len(),
                i <= n,
                first_source(self.moves@, path.key(), i as int) is None,
            decreases n - i,
        {
            if self.moves[i].source.same(path) {
                proof {
                    self.lemma_first_source(path.key(), i + 1, n as int);
                }
                return Some(i);
            }
            i = i + 1;
        }
        None
    }

    /// The first of the first `n` moves with the given target.
    fn find_target(&self, path: &FilePath, n: usize) -> (r: Option<usize>)
        requires
            n <= self.moves@.len(),
        ensures
            match r {
                Some(j) => j < n && first_target(self.moves@, path.key(), n as int) == Some(
                    j as int,
                ),
                None => first_target(self.moves@, path.key(), n as int) is None,
            },
    {
        let mut i: usize = 0;
        while i < n
            invariant
                n <= self.moves@.len(),
                i <= n,
                first_target(self.moves@, path.key(), i as int) is None,
            decreases n - i,
        {
            if self.moves[i].target.same(path) {
                proof {
                    self.lemma_first_target(path.key(), i + 1, n as int);
                }
                return Some(i);
            }
            i = i + 1;
        }
        None
    }

    proof fn lemma_first_source(&self, k: Key, m: int, n: int)
        requires
            m <= n,
            first_source(self.moves@, k, m) is Some,
        ensures
            first_source(self.moves@, k, n) == first_source(self.moves@, k, m),
        decreases n,
    {
        if m < n {
            self.lemma_first_source(k, m, n - 1);
        }
    }

    proof fn lemma_first_target(&self, k: Key, m: int, n: int)
        requires
            m <= n,
            first_target(self.moves@, k, m) is Some,
        ensures
            first_target(self.moves@, k, n) == first_target(self.moves@, k, m),
        decreases n,
    {
        if m < n {
            self.lemma_first_target(k, m, n - 1);
        }
    }

    /// The rules that need no file system: a path used twice, a chain, two
    /// moves nesting one inside the other.
    fn check_shape(&self, violations: &mut Vec<Violation>)
        ensures
            views(final(violations)@) == views(old(violations)@) + shape_problems(self.moves@),
    {
        let ghost start = views(violations@);
        let n: usize = self.moves.len();
        let mut i: usize = 0;
        assert(views(violations@) =~= start + repeats(self.moves@, 0));
        while i < n
            invariant
                n == self.moves@.len(),
                i <= n,
                views(violations@) == start + repeats(self.moves@, i as int),
            decreases n - i,
        {
            let mv = &self.moves[i];
            let ghost before = views(violations@);
            if let Some(j) = self.find_source(&mv.source, i) {
                let place = self.moves[j].locator();
                let message = concat5(
                    mv.source.as_str(),
                    " is a source twice (first at ",
                    place.as_str(),
                    ")",
                    "",
                );
                proof {
                    reveal_strlit("");
                    assert(message@ =~= mv.source@ + " is a source twice (first at "@ + place@
                        + ")"@);
                }
                let violation = Violation::new(mv.line, message);
                proof {
                    lemma_views_push(violations@, violation);
                }
                violations.push(violation);
            }
            let ghost middle = views(violations@);
            if let Some(j) = self.find_target(&mv.target, i) {
                let place = self.moves[j].locator();
                let message = concat5(
                    "two sources map to ",
                    mv.target.as_str(),
                    " (also ",
                    place.as_str(),
                    ")",
                );
                let violation = Violation::new(mv.line, message);
                proof {
                    lemma_views_push(violations@, violation);
                }
                violations.push(violation);
            }
            assert(views(violations@) =~= before + repeats_at(self.moves@, i as int));
            i = i + 1;
            assert(views(violations@) =~= start + repeats(self.moves@, i as int));
        }
        let ghost repeated = views(violations@);
        i = 0;
        assert(views(violations@) =~= repeated + chains(self.moves@, 0));
        while i < n
            invariant
                n == self.moves@.len(),
                i <= n,
                views(violations@) == repeated + chains(self.moves@, i as int),
            decreases n - i,
        {
            let mv = &self.moves[i];
            let ghost before = views(violations@);
            if let Some(j) = self.find_source(&mv.target, n) {
                if j != i {
                    let place = self.moves[j].locator();
                    let message = concat5(
                        mv.target.as_str(),
                        " is both a source and a target (chain with ",
                        place.as_str(),
                        ")",
                        "",
                    );
                    proof {
                        reveal_strlit("");
                        assert(message@ =~= mv.target@
                            + " is both a source and a target (chain with "@ + place@ + ")"@);
                    }
                    let violation = Violation::new(mv.line, message);
                    proof {
                        lemma_views_push(violations@, violation);
                    }
                    violations.push(violation);
                }
            }
            assert(views(violations@) =~= before + chain_at(self.moves@, i as int));
            i = i + 1;
            assert(views(violations@) =~= repeated + chains(self.moves@, i as int));
        }
        let ghost chained = views(violations@);
        i = 0;
        assert(views(violations@) =~= chained + crossings(self.moves@, 0));
        while i < n
            invariant
                n == self.moves@.len(),
                i <= n,
                views(violations@) == chained + crossings(self.moves@, i as int),
            decreases n - i,
        {
            let ghost before = views(violations@);
            let mut j: usize = i + 1;
            assert(views(violations@) =~= before + crossings_at(self.moves@, i as int, j as int));
            while j < n
                invariant
                    n == self.moves@.len(),
                    i < j <= n,
                    views(violations@) == before + crossings_at(self.moves@, i as int, j as int),
                decreases n - j,
            {
                let ghost now = views(violations@);
                check_crossing(&self.moves[i], &self.moves[j], violations);
                j = j + 1;
                assert(views(violations@) =~= before + crossings_at(
                    self.moves@,
                    i as int,
                    j as int,
                ));
            }
            i = i + 1;
            assert(views(violations@) =~= chained + crossings(self.moves@, i as int));
        }
        assert(views(violations@) =~= start + shape_problems(self.moves@));
    }

    /// The rules that have to look at the file system, with the states of the
    /// sources that they scan on the way.
    fn check_paths<F: Fs>(
        &self,
        fs: &F,
        claude_home: &Home,
        rules: &PlanRules,
        violations: &mut Vec<Violation>,
    ) -> (r: Result<Vec<ProjectState>, Error>)
        ensures
            ({
                let n = self.moves@.len() as int;
                let fault = plan_fault(fs.view(), self.moves@, claude_home@, *rules, n);
                match r {
                    Ok(states) => {
                        &&& fault is None
                        &&& states@.len() == n
                        &&& forall|i: int|
                            0 <= i < n ==> describes(
                                #[trigger] states@[i],
                                fs.view(),
                                self.moves@[i].source@,
                                claude_home@,
                            )
                        &&& views(final(violations)@) == views(old(violations)@) + path_problems(
                            fs.view(),
                            self.moves@,
                            claude_home@,
                            *rules,
                            n,
                        )
                    },
                    Err(e) => fault is Some && reports(e, fault->0),
                }
            }),
    {
        let ghost start = views(violations@);
        let ghost v = fs.view();
        let ghost home = claude_home@;
        let mut states: Vec<ProjectState> = Vec::new();
        let n: usize = self.moves.len();
        let mut i: usize = 0;
        assert(views(violations@) =~= start + path_problems(v, self.moves@, home, *rules, 0));
        while i < n
            invariant
                v == fs.view(),
                home == claude_home@,
                n == self.moves@.len(),
                i <= n,
                states@.len() == i,
                forall|j: int|
                    0 <= j < i ==> describes(
                        #[trigger] states@[j],
                        v,
                        self.moves@[j].source@,
                        home,
                    ),
                plan_fault(v, self.moves@, home, *rules, i as int) is None,
                views(violations@) == start + path_problems(
                    v,
                    self.moves@,
                    home,
                    *rules,
                    i as int,
                ),
            decreases n - i,
        {
            let mv = &self.moves[i];
            let ghost before = views(violations@);
            let state = match scan(fs, &mv.source, claude_home) {
                Ok(state) => state,
                Err(e) => {
                    proof {
                        lemma_plan_fault(v, self.moves@, home, *rules, i + 1, n as int);
                    }
                    return Err(e);
                },
            };
            if !state.has_claude_data() {
                let violation = Violation::new(mv.line, missing_source_error(&mv.source));
                proof {
                    lemma_views_push(violations@, violation);
                }
                violations.push(violation);
            }
            if rules.session_only {
                // A source without global data has nothing to give, and a
                // target directory that is not there would be left holding
                // sessions that nothing finds.
                if state.global_project_dir.is_none() {
                    let mut message = "nothing to move: no global session data for ".to_owned();
                    message.append(mv.source.as_str());
                    let violation = Violation::new(mv.line, message);
                    proof {
                        lemma_views_push(violations@, violation);
                    }
                    violations.push(violation);
                }
                if !mv.source.same(&mv.target) && !fs.is_dir(&mv.target) {
                    let mut message =
                        "target path does not exist; sessions would be orphaned: ".to_owned();
                    message.append(mv.target.as_str());
                    let violation = Violation::new(mv.line, message);
                    proof {
                        lemma_views_push(violations@, violation);
                    }
                    violations.push(violation);
                }
            }
            states.push(state);
            // A session-only run merges into the target's global data, so an
            // occupied target is what it expects.
            if !rules.force && !rules.session_only && !mv.source.same(&mv.target) {
                let target_state = match scan(fs, &mv.target, claude_home) {
                    Ok(state) => state,
                    Err(e) => {
                        proof {
                            lemma_plan_fault(v, self.moves@, home, *rules, i + 1, n as int);
                        }
                        return Err(e);
                    },
                };
                if target_state.global_project_dir.is_some() {
                    let violation = Violation::new(mv.line, occupied_target_error(&mv.target));
                    proof {
                        lemma_views_push(violations@, violation);
                    }
                    violations.push(violation);
                }
            }
            proof {
                assert(views(violations@) =~= before + path_problems_of(v, *mv, home, *rules));
            }
            i = i + 1;
            assert(views(violations@) =~= start + path_problems(
                v,
                self.moves@,
                home,
                *rules,
                i as int,
            ));
        }
        Ok(states)
    }

    /// Checks the whole plan before the first write, and gives the state of
    /// every move's source, in the order of the plan.
    ///
    /// Chains, swaps and nested paths are refused rather than put in an order
    /// that would work: getting that order wrong loses data in silence.
    pub fn validate<F: Fs>(&self, fs: &F, claude_home: &Home, rules: &PlanRules) -> (r: Result<
        Vec<ProjectState>,
        Error,
    >)
        ensures
            ({
                let n = self.moves@.len() as int;
                let fault = plan_fault(fs.view(), self.moves@, claude_home@, *rules, n);
                let problems = plan_problems(fs.view(), self.moves@, claude_home@, *rules);
                match r {
                    Ok(states) => {
                        &&& fault is None
                        &&& problems.len() == 0
                        &&& states@.len() == n
                        &&& forall|i: int|
                            0 <= i < n ==> describes(
                                #[trigger] states@[i],
                                fs.view(),
                                self.moves@[i].source@,
                                claude_home@,
                            )
                    },
                    Err(e) => {
                        ||| fault is Some && reports(e, fault->0)
                        ||| {
                            &&& fault is None
                            &&& problems.len() > 0
                            &&& e matches Error::Plan(p) && p.problem_texts() == reported(problems)
                        }
                    },
                }
            }),
    {
        let mut violations: Vec<Violation> = Vec::new();
        assert(views(violations@) =~= Seq::empty());
        self.check_shape(&mut violations);
        let states = match self.check_paths(fs, claude_home, rules, &mut violations) {
            Ok(states) => states,
            Err(e) => {
                return Err(e);
            },
        };
        let ghost problems = plan_problems(fs.view(), self.moves@, claude_home@, *rules);
        assert(views(violations@) =~= problems);
        if violations.len() == 0 {
            return Ok(states);
        }
        let ghost lt = |a: Violation, b: Violation| line_key(a@) < line_key(b@);
        let before = |a: &Violation, b: &Violation| -> (r: bool)
            ensures
                r == lt(*a, *b),
            { sort_line(a) < sort_line(b) };
        let ghost found = violations@;
        let in_order = stable_sort(violations, before, Ghost(lt));
        let lines = report_lines(&in_order);
        let error = PlanError { problems: lines };
        proof {
            let f = |x: Violation| x@;
            lemma_sorted_map(found, f, lt, by_line());
            assert(views(in_order@) == sorted(problems, by_line()));
            assert(error.problem_texts() =~= reported(problems)) by {
                assert(error.problem_texts().len() == in_order@.len());
                assert(views(in_order@).len() == in_order@.len());
                assert forall|i: int| 0 <= i < in_order@.len() implies #[trigger] reported(
                    problems,
                )[i] == error.problem_texts()[i] by {
                    assert(views(in_order@)[i] == in_order@[i]@);
                    assert(lines@[i]@ == report_line(in_order@[i]@));
                }
            }
        }
        Err(Error::Plan(error))
    }
}

fn sort_line(v: &Violation) -> (r: usize)
    ensures
        r == line_key(v@),
{
    match v.line {
        Some(n) => n,
        None => usize::MAX,
    }
}

/// The lines that report the problems.
fn report_lines(violations: &Vec<Violation>) -> (r: Vec<String>)
    ensures
        r@.len() == violations@.len(),
        forall|i: int| 0 <= i < r@.len() ==> (#[trigger] r@[i])@ == report_line(violations@[i]@),
{
    let mut r: Vec<String> = Vec::new();
    let mut i: usize = 0;
    while i < violations.len()
        invariant
            i <= violations@.len(),
            r@.len() == i,
            forall|j: int| 0 <= j < i ==> (#[trigger] r@[j])@ == report_line(violations@[j]@),
        decreases violations@.len() - i,
    {
        let v = &violations[i];
        let line = match v.line {
            Some(n) => {
                let mut line = "line ".to_owned();
                push_decimal(&mut line, n);
                line.append(": ");
                line.append(v.message.as_str());
                line
            },
            None => v.message.clone(),
        };
        r.push(line);
        i = i + 1;
    }
    r
}

/// Reports where a path of one move lies below a path of the other.
fn check_crossing(outer: &Move, inner: &Move, violations: &mut Vec<Violation>)
    ensures
        views(final(violations)@) == views(old(violations)@) + crossing(*outer, *inner),
{
    let line = match inner.line {
        Some(n) => Some(n),
        None => outer.line,
    };
    let found = if nests(&outer.source, &inner.source) {
        Some((&outer.source, &inner.source))
    } else if nests(&outer.source, &inner.target) {
        Some((&outer.source, &inner.target))
    } else if nests(&outer.target, &inner.source) {
        Some((&outer.target, &inner.source))
    } else if nests(&outer.target, &inner.target) {
        Some((&outer.target, &inner.target))
    } else {
        None
    };
    match found {
        Some((a, b)) => {
            let message = concat5(
                a.as_str(),
                " and ",
                b.as_str(),
                " belong to different moves, one inside the other (nesting)",
                "",
            );
            proof {
                reveal_strlit("");
                assert(message@ =~= a@ + " and "@ + b@
                    + " belong to different moves, one inside the other (nesting)"@);
            }
            let violation = Violation::new(line, message);
            proof {
                lemma_views_push(violations@, violation);
            }
            violations.push(violation);
        },
        None => {
            assert(views(violations@) =~= views(violations@) + crossing(*outer, *inner));
        },
    }
}

/// The first fault of a plan stays the first.
proof fn lemma_plan_fault(
    v: FsView,
    moves: Seq<Move>,
    home: HomeView,
    rules: PlanRules,
    m: int,
    n: int,
)
    requires
        m <= n,
        plan_fault(v, moves, home, rules, m) is Some,
    ensures
        plan_fault(v, moves, home, rules, n) == plan_fault(v, moves, home, rules, m),
    decreases n,
{
    if m < n {
        lemma_plan_fault(v, moves, home, rules, m, n - 1);
    }
}

/// No path of one move is a path of the other or lies above or below one.
pub open spec fn moves_apart(a: Move, b: Move) -> bool {
    &&& apart(a.source.key(), b.source.key())
    &&& apart(a.source.key(), b.target.key())
    &&& apart(a.target.key(), b.source.key())
    &&& apart(a.target.key(), b.target.key())
}

proof fn lemma_first_source_at(moves: Seq<Move>, k: Key, n: int)
    requires
        n <= moves.len(),
    ensures
        match first_source(moves, k, n) {
            Some(j) => 0 <= j < n && moves[j].source.key() == k,
            None => forall|j: int| 0 <= j < n ==> (#[trigger] moves[j]).source.key() != k,
        },
    decreases n,
{
    if n > 0 {
        lemma_first_source_at(moves, k, n - 1);
    }
}

proof fn lemma_first_target_at(moves: Seq<Move>, k: Key, n: int)
    requires
        n <= moves.len(),
    ensures
        match first_target(moves, k, n) {
            Some(j) => 0 <= j < n && moves[j].target.key() == k,
            None => forall|j: int| 0 <= j < n ==> (#[trigger] moves[j]).target.key() != k,
        },
    decreases n,
{
    if n > 0 {
        lemma_first_target_at(moves, k, n - 1);
    }
}

proof fn lemma_repeats_empty(moves: Seq<Move>, n: int)
    requires
        0 <= n <= moves.len(),
    ensures
        repeats(moves, n).len() == 0 <==> forall|i: int|
            0 <= i < n ==> #[trigger] repeats_at(moves, i).len() == 0,
    decreases n,
{
    if n > 0 {
        lemma_repeats_empty(moves, n - 1);
        if repeats(moves, n).len() == 0 {
            assert(repeats_at(moves, n - 1).len() == 0);
        }
    }
}

proof fn lemma_chains_empty(moves: Seq<Move>, n: int)
    requires
        0 <= n <= moves.len(),
    ensures
        chains(moves, n).len() == 0 <==> forall|i: int|
            0 <= i < n ==> #[trigger] chain_at(moves, i).len() == 0,
    decreases n,
{
    if n > 0 {
        lemma_chains_empty(moves, n - 1);
        if chains(moves, n).len() == 0 {
            assert(chain_at(moves, n - 1).len() == 0);
        }
    }
}

proof fn lemma_crossings_at_empty(moves: Seq<Move>, i: int, n: int)
    requires
        0 <= i,
        n <= moves.len(),
    ensures
        crossings_at(moves, i, n).len() == 0 <==> forall|j: int|
            i < j < n ==> #[trigger] crossing(moves[i], moves[j]).len() == 0,
    decreases n - i,
{
    if n > i + 1 {
        lemma_crossings_at_empty(moves, i, n - 1);
        if crossings_at(moves, i, n).len() == 0 {
            assert(crossing(moves[i], moves[n - 1]).len() == 0);
        }
    }
}

proof fn lemma_crossings_empty(moves: Seq<Move>, n: int)
    requires
        0 <= n <= moves.len(),
    ensures
        crossings(moves, n).len() == 0 <==> forall|i: int, j: int|
            0 <= i < n && i < j < moves.len() ==> #[trigger] crossing(
                moves[i],
                moves[j],
            ).len() == 0,
    decreases n,
{
    if n > 0 {
        lemma_crossings_empty(moves, n - 1);
        lemma_crossings_at_empty(moves, n - 1, moves.len() as int);
        if crossings(moves, n).len() == 0 {
            assert forall|i: int, j: int| 0 <= i < n && i < j < moves.len() implies
                #[trigger] crossing(moves[i], moves[j]).len() == 0 by {}
        } else if forall|i: int, j: int|
            0 <= i < n && i < j < moves.len() ==> #[trigger] crossing(
                moves[i],
                moves[j],
            ).len() == 0 {
            assert(crossings(moves, n - 1).len() == 0);
            assert(crossings_at(moves, n - 1, moves.len() as int).len() == 0);
        }
    }
}

proof fn lemma_same_is_under(a: Key, b: Key)
    requires
        a == b,
    ensures
        under(a, b),
{
    assert(a.subrange(0, a.len() as int) =~= a);
}

/// A plan has a sound shape exactly when no two of its moves touch: no source
/// and no target of one is a source or a target of another, nor lies above or
/// below one. So duplicate sources, two sources for one target, chains, swaps
/// and nested paths are all refused, and nothing else is.
pub proof fn law_sound_plan_is_apart(moves: Seq<Move>)
    ensures
        shape_problems(moves).len() == 0 <==> forall|i: int, j: int|
            0 <= i < j < moves.len() ==> #[trigger] moves_apart(moves[i], moves[j]),
{
    let n = moves.len() as int;
    lemma_repeats_empty(moves, n);
    lemma_chains_empty(moves, n);
    lemma_crossings_empty(moves, n);
    if shape_problems(moves).len() == 0 {
        assert forall|i: int, j: int| 0 <= i < j < n implies #[trigger] moves_apart(
            moves[i],
            moves[j],
        ) by {
            let a = moves[i];
            let b = moves[j];
            assert(crossing(a, b).len() == 0);
            assert(repeats_at(moves, j).len() == 0);
            lemma_first_source_at(moves, b.source.key(), j);
            lemma_first_target_at(moves, b.target.key(), j);
            assert(a.source.key() != b.source.key());
            assert(a.target.key() != b.target.key());
            assert(chain_at(moves, i).len() == 0);
            assert(chain_at(moves, j).len() == 0);
            lemma_first_source_at(moves, a.target.key(), n);
            lemma_first_source_at(moves, b.target.key(), n);
            // A target that is another move's source would be a chain, or
            // its own source and then a source twice.
            assert(a.target.key() != b.source.key()) by {
                if a.target.key() == b.source.key() {
                    let f = first_source(moves, a.target.key(), n);
                    assert(f is Some);
                    assert(f->0 == i);
                    assert(a.source.key() == b.source.key());
                }
            }
            assert(b.target.key() != a.source.key()) by {
                if b.target.key() == a.source.key() {
                    let f = first_source(moves, b.target.key(), n);
                    assert(f is Some);
                    assert(f->0 == j);
                    assert(a.source.key() == b.source.key());
                }
            }
        }
    }
    if forall|i: int, j: int|
        0 <= i < j < moves.len() ==> #[trigger] moves_apart(moves[i], moves[j]) {
        assert forall|i: int| 0 <= i < n implies #[trigger] repeats_at(moves, i).len() == 0 by {
            lemma_first_source_at(moves, moves[i].source.key(), i);
            lemma_first_target_at(moves, moves[i].target.key(), i);
            if let Some(j) = first_source(moves, moves[i].source.key(), i) {
                assert(moves_apart(moves[j], moves[i]));
                lemma_same_is_under(moves[j].source.key(), moves[i].source.key());
            }
            if let Some(j) = first_target(moves, moves[i].target.key(), i) {
                assert(moves_apart(moves[j], moves[i]));
                lemma_same_is_under(moves[j].target.key(), moves[i].target.key());
            }
        }
        assert forall|i: int| 0 <= i < n implies #[trigger] chain_at(moves, i).len() == 0 by {
            lemma_first_source_at(moves, moves[i].target.key(), n);
            if let Some(j) = first_source(moves, moves[i].target.key(), n) {
                if j < i {
                    assert(moves_apart(moves[j], moves[i]));
                    lemma_same_is_under(moves[j].source.key(), moves[i].target.key());
                } else if i < j {
                    assert(moves_apart(moves[i], moves[j]));
                    lemma_same_is_under(moves[i].target.key(), moves[j].source.key());
                }
            }
        }
        assert forall|i: int, j: int| 0 <= i < n && i < j < moves.len() implies
            #[trigger] crossing(moves[i], moves[j]).len() == 0 by {
            assert(moves_apart(moves[i], moves[j]));
        }
    }
}

/// A rejected plan reports every problem, once, in the order of the lines, those
/// without a line last.
pub proof fn law_problems_are_reported_in_order(problems: Seq<Problem>)
    ensures
        sorted(problems, by_line()).to_multiset() == problems.to_multiset(),
        reported(problems).len() == problems.len(),
        forall|i: int, j: int|
            0 <= i < j < problems.len() ==> line_key(#[trigger] sorted(problems, by_line())[i])
                <= line_key(#[trigger] sorted(problems, by_line())[j]),
{
    lemma_sorted(problems, by_line());
    let s = sorted(problems, by_line());
    assert forall|i: int, j: int| 0 <= i < j < problems.len() implies line_key(#[trigger] s[i])
        <= line_key(#[trigger] s[j]) by {
        assert(!by_line()(s[j], s[i]));
    }
}

} // verus!
