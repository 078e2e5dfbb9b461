//! How a batch file is read, character by character.

use vstd::prelude::*;

use crate::batch::is_skipped;
use crate::batch::joined_lines;
use crate::batch::line_at;
use crate::batch::lines_of;
use crate::batch::moves_on;
use crate::batch::read_line;
use crate::batch::readable_to;
use crate::batch::without_returns;
use crate::batch::LineView;
use crate::text::lemma_split_concat;
use crate::text::lemma_split_nonempty;
use crate::text::lemma_split_single;
use crate::text::split;
use crate::text::whitespace;

verus! {

/// Whether a line says something: it has a visible character, and the first of them
/// starts no comment.
pub open spec fn speaks(line: Seq<char>) -> bool {
    exists|p: int| #[trigger] speaks_at(line, p)
}

/// The first visible character of the line stands at `p` and starts no comment.
pub open spec fn speaks_at(line: Seq<char>, p: int) -> bool {
    &&& 0 <= p < line.len()
    &&& !whitespace(line[p]) && line[p] != '#'
    &&& forall|q: int| 0 <= q < p ==> whitespace(#[trigger] line[q])
}

/// The line has a tab at `x`, and no other.
pub open spec fn only_tab(line: Seq<char>, x: int) -> bool {
    &&& 0 <= x < line.len() && line[x] == '\t'
    &&& forall|y: int| 0 <= y < line.len() && y != x ==> #[trigger] line[y] != '\t'
}

/// White space is what Unicode says it is: the six control characters of ASCII and the
/// space, the next line and the no-break space of Latin-1, and the wider blanks and
/// separators.
pub proof fn law_white_space(c: char)
    ensures
        whitespace(c) <==> {
            let n = c as int;
            ||| 9 <= n <= 13 || n == 32 || n == 0x85 || n == 0xa0
            ||| n == 0x1680 || 0x2000 <= n <= 0x200a
            ||| n == 0x2028 || n == 0x2029 || n == 0x202f || n == 0x205f || n == 0x3000
        },
{
}

proof fn lemma_speaks(line: Seq<char>)
    ensures
        speaks(line) == !is_skipped(line),
    decreases line.len(),
{
    if line.len() > 0 {
        let rest = line.drop_first();
        lemma_speaks(rest);
        if whitespace(line[0]) {
            if speaks(line) {
                let p = choose|p: int| #[trigger] speaks_at(line, p);
                assert(speaks_at(rest, p - 1)) by {
                    assert(rest[p - 1] == line[p]);
                    assert forall|q: int| 0 <= q < p - 1 implies whitespace(#[trigger] rest[q]) by {
                        assert(rest[q] == line[q + 1]);
                    }
                }
            }
            if speaks(rest) {
                let p = choose|p: int| #[trigger] speaks_at(rest, p);
                assert(speaks_at(line, p + 1)) by {
                    assert(rest[p] == line[p + 1]);
                    assert forall|q: int| 0 <= q < p + 1 implies whitespace(#[trigger] line[q]) by {
                        if q > 0 {
                            assert(rest[q - 1] == line[q]);
                        }
                    }
                }
            }
        } else if line[0] == '#' {
            assert forall|p: int| !(#[trigger] speaks_at(line, p)) by {
                if p > 0 && speaks_at(line, p) {
                    assert(whitespace(line[0]));
                }
            }
        } else {
            assert(speaks_at(line, 0));
        }
    } else {
        assert forall|p: int| !(#[trigger] speaks_at(line, p)) by {}
    }
}

proof fn lemma_joined_lines(lines: Seq<Seq<char>>)
    requires
        forall|i: int| 0 <= i < lines.len() ==> !(#[trigger] lines[i]).contains('\n'),
    ensures
        split(joined_lines(lines), '\n') == lines.push(Seq::empty()),
        lines_of(joined_lines(lines)) == lines,
    decreases lines.len(),
{
    let text = joined_lines(lines);
    if lines.len() == 0 {
        assert(split(text, '\n') =~= lines.push(Seq::empty()));
    } else {
        let first = lines.first();
        let rest = lines.drop_first();
        assert forall|i: int| 0 <= i < rest.len() implies !(#[trigger] rest[i]).contains('\n') by {
            assert(rest[i] == lines[i + 1]);
        }
        lemma_joined_lines(rest);
        assert(!lines[0].contains('\n'));
        lemma_split_concat(first, '\n', joined_lines(rest));
        lemma_split_single(first, '\n');
        assert(split(text, '\n') =~= lines.push(Seq::empty()));
    }
    assert(lines.push(Seq::empty()).drop_last() =~= lines);
}

proof fn lemma_tab_splits(line: Seq<char>, x: int)
    requires
        0 <= x < line.len(),
        line[x] == '\t',
    ensures
        split(line, '\t') == split(line.take(x), '\t') + split(line.skip(x + 1), '\t'),
        split(line, '\t').len() >= 2,
{
    let a = line.take(x);
    let b = line.skip(x + 1);
    assert(line =~= a.push('\t') + b);
    lemma_split_concat(a, '\t', b);
    lemma_split_nonempty(a, '\t');
    lemma_split_nonempty(b, '\t');
}

proof fn lemma_read_line(line: Seq<char>)
    ensures
        read_line(line) is Skipped <==> !speaks(line),
        speaks(line) && !line.contains('\t') ==> read_line(line) is WrongFields,
        forall|x: int, y: int|
            #![trigger line[x], line[y]]
            speaks(line) && 0 <= x < y < line.len() && line[x] == '\t' && line[y] == '\t'
                ==> read_line(line) is WrongFields,
        forall|x: int|
            speaks(line) && #[trigger] only_tab(line, x) && (x == 0 || x == line.len() - 1)
                ==> read_line(line) is EmptyField,
        forall|x: int|
            speaks(line) && #[trigger] only_tab(line, x) && 0 < x < line.len() - 1 ==> read_line(
                line,
            ) == LineView::Move(line.take(x), line.skip(x + 1)),
{
    lemma_speaks(line);
    if !line.contains('\t') {
        lemma_split_single(line, '\t');
    }
    assert forall|x: int, y: int|
        #![trigger line[x], line[y]]
        speaks(line) && 0 <= x < y < line.len() && line[x] == '\t' && line[y] == '\t' implies
        read_line(line) is WrongFields by {
        lemma_tab_splits(line, x);
        let b = line.skip(x + 1);
        assert(b[y - x - 1] == '\t');
        lemma_tab_splits(b, y - x - 1);
        lemma_split_nonempty(line.take(x), '\t');
    }
    assert forall|x: int| #[trigger] only_tab(line, x) implies split(line, '\t') == seq![
        line.take(x),
        line.skip(x + 1),
    ] by {
        lemma_tab_splits(line, x);
        let a = line.take(x);
        let b = line.skip(x + 1);
        assert(!a.contains('\t')) by {
            assert forall|i: int| 0 <= i < a.len() implies a[i] != '\t' by {
                assert(a[i] == line[i]);
            }
        }
        assert(!b.contains('\t')) by {
            assert forall|i: int| 0 <= i < b.len() implies b[i] != '\t' by {
                assert(b[i] == line[x + 1 + i]);
            }
        }
        lemma_split_single(a, '\t');
        lemma_split_single(b, '\t');
        assert(split(line, '\t') =~= seq![a, b]);
    }
}

/// What stands on a line of a batch file is read by its tabs. A line that says nothing
/// is passed over. Of the others, one with a single tab is a move from what stands in
/// front of the tab to what stands behind it, both of them whole, and neither may be
/// empty; one with no tab or with several is refused.
pub proof fn law_a_line_is_read_by_its_tabs(lines: Seq<Seq<char>>, i: int)
    requires
        forall|j: int| 0 <= j < lines.len() ==> !(#[trigger] lines[j]).contains('\n'),
        0 <= i < lines.len(),
        lines[i].len() > 0 ==> lines[i].last() != '\r',
    ensures
        ({
            let line = lines[i];
            let read = line_at(joined_lines(lines), i);
            &&& lines_of(joined_lines(lines)) == lines
            &&& !speaks(line) ==> read is Skipped
            &&& speaks(line) && !line.contains('\t') ==> read is WrongFields
            &&& forall|x: int, y: int|
                #![trigger line[x], line[y]]
                speaks(line) && 0 <= x < y < line.len() && line[x] == '\t' && line[y] == '\t'
                    ==> read is WrongFields
            &&& forall|x: int|
                speaks(line) && #[trigger] only_tab(line, x) && (x == 0 || x == line.len() - 1)
                    ==> read is EmptyField
            &&& forall|x: int|
                speaks(line) && #[trigger] only_tab(line, x) && 0 < x < line.len() - 1 ==> read
                    == LineView::Move(line.take(x), line.skip(x + 1))
        }),
{
    lemma_joined_lines(lines);
    let line = lines[i];
    lemma_read_line(line);
    assert(without_returns(line) == line);
}

/// The line is that of a move from `s` to `t`, with any number of carriage returns at
/// its end.
pub open spec fn tells(line: Seq<char>, s: Seq<char>, t: Seq<char>, ends: nat) -> bool {
    &&& s.len() > 0 && !s.contains('\t') && !s.contains('\n')
    &&& t.len() > 0 && !t.contains('\t') && !t.contains('\n') && t.last() != '\r'
    &&& speaks(s + seq!['\t'] + t)
    &&& line == s + seq!['\t'] + t + Seq::new(ends, |i: int| '\r')
}

proof fn lemma_returns_fall_off(line: Seq<char>, n: nat)
    requires
        line.len() > 0,
        line.last() != '\r',
    ensures
        without_returns(line + Seq::new(n, |i: int| '\r')) == line,
    decreases n,
{
    let whole = line + Seq::new(n, |i: int| '\r');
    if n == 0 {
        assert(whole =~= line);
    } else {
        let m = (n - 1) as nat;
        assert(whole.drop_last() =~= line + Seq::new(m, |i: int| '\r'));
        lemma_returns_fall_off(line, m);
    }
}

proof fn lemma_told(line: Seq<char>, s: Seq<char>, t: Seq<char>, n: nat)
    requires
        tells(line, s, t, n),
    ensures
        !line.contains('\n'),
        read_line(without_returns(line)) == LineView::Move(s, t),
{
    let bare = s + seq!['\t'] + t;
    assert(bare.last() == t.last());
    lemma_returns_fall_off(bare, n);
    assert forall|i: int| 0 <= i < line.len() implies line[i] != '\n' by {
        if i < s.len() {
            assert(s.contains(line[i]));
        } else if s.len() < i < bare.len() {
            assert(line[i] == t[i - s.len() - 1]);
            assert(t.contains(line[i]));
        }
    }
    let x = s.len() as int;
    assert(only_tab(bare, x)) by {
        assert forall|y: int| 0 <= y < bare.len() && y != x implies #[trigger] bare[y] != '\t' by {
            if y < x {
                assert(s.contains(bare[y]));
            } else {
                assert(bare[y] == t[y - x - 1]);
                assert(t.contains(bare[y]));
            }
        }
    }
    lemma_read_line(bare);
    assert(bare.take(x) =~= s);
    assert(bare.skip(x + 1) =~= t);
}

/// Moves that are written down one on a line, a tab between the source and the target,
/// are read back: all of them, in their order, each with the number of its line.
/// Nothing but a tab or a line end inside a path is in the way.
pub proof fn law_written_moves_are_read_back(
    lines: Seq<Seq<char>>,
    moves: Seq<(Seq<char>, Seq<char>)>,
    ends: Seq<nat>,
)
    requires
        lines.len() == moves.len() == ends.len(),
        forall|i: int|
            0 <= i < lines.len() ==> tells(#[trigger] lines[i], moves[i].0, moves[i].1, ends[i]),
    ensures
        lines_of(joined_lines(lines)).len() == lines.len(),
        readable_to(joined_lines(lines), lines.len() as int),
        moves_on(joined_lines(lines), lines.len() as int) == Seq::new(
            moves.len(),
            |i: int| (moves[i].0, moves[i].1, i + 1),
        ),
{
    let text = joined_lines(lines);
    assert forall|i: int| 0 <= i < lines.len() implies !(#[trigger] lines[i]).contains('\n')
        && read_line(without_returns(lines[i])) == LineView::Move(moves[i].0, moves[i].1) by {
        lemma_told(lines[i], moves[i].0, moves[i].1, ends[i]);
    }
    lemma_joined_lines(lines);
    assert forall|i: int| 0 <= i < lines.len() implies #[trigger] line_at(text, i)
        == LineView::Move(moves[i].0, moves[i].1) by {
        assert(lines_of(text)[i] == lines[i]);
    }
    lemma_moves_told(text, moves, lines.len() as int);
}

proof fn lemma_moves_told(text: Seq<char>, moves: Seq<(Seq<char>, Seq<char>)>, n: int)
    requires
        0 <= n <= moves.len(),
        forall|i: int|
            0 <= i < moves.len() ==> #[trigger] line_at(text, i) == LineView::Move(
                moves[i].0,
                moves[i].1,
            ),
    ensures
        moves_on(text, n) == Seq::new(n as nat, |i: int| (moves[i].0, moves[i].1, i + 1)),
    decreases n,
{
    let all = Seq::new(n as nat, |i: int| (moves[i].0, moves[i].1, i + 1));
    if n > 0 {
        lemma_moves_told(text, moves, n - 1);
        assert(line_at(text, n - 1) == LineView::Move(moves[n - 1].0, moves[n - 1].1));
    }
    assert(moves_on(text, n) =~= all);
}

} // verus!
