//! Unix paths as text, compared by their components.
//!
//! A path keeps the exact text it was given, and every question about where it
//! leads is answered from its components: repeated and trailing separators do
//! not count, and neither does a `.` anywhere but at the very start of a
//! relative path. The root is the component `/`.

use vstd::prelude::*;
use vstd::string::*;

use crate::text::chars_of;
use crate::text::lemma_split_concat;
use crate::text::lemma_split_nonempty;
use crate::text::lemma_split_pieces;
use crate::text::lemma_split_single;
use crate::text::split;
use crate::text::string_of;

verus! {

/// The components of a path. Two paths with the same components are the same
/// path.
pub type Key = Seq<Seq<char>>;

pub open spec fn dot() -> Seq<char> {
    seq!['.']
}

pub open spec fn dot_dot() -> Seq<char> {
    seq!['.', '.']
}

pub open spec fn slash() -> Seq<char> {
    seq!['/']
}

/// The pieces that name something: neither empty nor `.`.
pub open spec fn named(pieces: Seq<Seq<char>>) -> Seq<Seq<char>> {
    pieces.filter(|p: Seq<char>| p.len() > 0 && p != dot())
}

/// The components that `s` adds when it follows another path.
pub open spec fn tail_components(s: Seq<char>) -> Key {
    named(split(s, '/'))
}

/// The components of the path `s`.
pub open spec fn components(s: Seq<char>) -> Key {
    if s.len() == 0 {
        Seq::empty()
    } else {
        let pieces = split(s, '/');
        let head = if pieces[0].len() == 0 {
            slash()
        } else {
            pieces[0]
        };
        seq![head] + named(pieces.drop_first())
    }
}

/// The text of `b` read from inside `a`: `b` itself when it is absolute.
pub open spec fn join_text(a: Seq<char>, b: Seq<char>) -> Seq<char> {
    if b.len() > 0 && b[0] == '/' {
        b
    } else if a.len() == 0 || a.last() == '/' {
        a + b
    } else {
        a.push('/') + b
    }
}

/// A component that names an entry of a directory.
pub open spec fn is_name(c: Seq<char>) -> bool {
    c != slash() && c != dot() && c != dot_dot()
}

/// Whether the path with components `k` has a parent: it is neither empty nor
/// the root.
pub open spec fn has_parent(k: Key) -> bool {
    k.len() > 0 && k.last() != slash()
}

/// `n` is the length of the shortest start of `s` that has the components `k`.
pub open spec fn is_shortest(s: Seq<char>, k: Key, n: int) -> bool {
    &&& 0 <= n <= s.len()
    &&& components(s.take(n)) == k
    &&& forall|m: int| 0 <= m < n ==> #[trigger] components(s.take(m)) != k
}

/// The length of the shortest start of `s` that has the components `k`.
pub open spec fn shortest(s: Seq<char>, k: Key) -> int {
    choose|n: int| is_shortest(s, k, n)
}

/// The text of the parent of `s`: its shortest start that has all components
/// but the last.
pub open spec fn parent_text(s: Seq<char>) -> Seq<char> {
    s.take(shortest(s, components(s).drop_last()))
}

/// `k` leads to `base` or below it.
pub open spec fn under(k: Key, base: Key) -> bool {
    base.is_prefix_of(k)
}

proof fn lemma_named_single(p: Seq<char>)
    ensures
        named(seq![p]) == if p.len() > 0 && p != dot() {
            seq![p]
        } else {
            Seq::empty()
        },
{
    let f = |p: Seq<char>| p.len() > 0 && p != dot();
    reveal_with_fuel(Seq::filter, 2);
    assert(seq![p].drop_last() =~= Seq::empty());
    assert(seq![p].filter(f) =~= if f(p) {
        seq![p]
    } else {
        Seq::empty()
    });
}

proof fn lemma_named_concat(a: Seq<Seq<char>>, b: Seq<Seq<char>>)
    ensures
        named(a + b) == named(a) + named(b),
{
    Seq::filter_distributes_over_add(a, b, |p: Seq<char>| p.len() > 0 && p != dot());
}

/// Where a text ends before a separator, the components on both sides add up.
pub proof fn lemma_components_concat(a: Seq<char>, b: Seq<char>)
    ensures
        components(a.push('/') + b) == if a.len() == 0 {
            seq![slash()] + tail_components(b)
        } else {
            components(a) + tail_components(b)
        },
{
    lemma_split_concat(a, '/', b);
    lemma_split_nonempty(a, '/');
    lemma_split_nonempty(b, '/');
    let whole = a.push('/') + b;
    let pa = split(a, '/');
    let pb = split(b, '/');
    assert((pa + pb).drop_first() =~= pa.drop_first() + pb);
    lemma_named_concat(pa.drop_first(), pb);
    if a.len() == 0 {
        assert(pa.drop_first() =~= Seq::empty());
        assert(named(pa.drop_first()) =~= Seq::empty());
        assert(components(whole) =~= seq![slash()] + tail_components(b));
    } else {
        assert(components(whole) =~= components(a) + tail_components(b));
    }
}

/// A separator at the end adds nothing but the root.
proof fn lemma_components_slash(p: Seq<char>)
    ensures
        components(p.push('/')) == if p.len() == 0 {
            seq![slash()]
        } else {
            components(p)
        },
{
    lemma_components_concat(p, Seq::empty());
    assert(p.push('/') + Seq::<char>::empty() =~= p.push('/'));
    lemma_split_single(Seq::empty(), '/');
    lemma_named_single(Seq::empty());
    assert(seq![slash()] + Seq::<Seq<char>>::empty() =~= seq![slash()]);
    assert(components(p) + Seq::<Seq<char>>::empty() =~= components(p));
}

/// A piece after a separator, or at the very start, adds itself when it counts.
proof fn lemma_components_piece(p: Seq<char>, w: Seq<char>)
    requires
        p.len() == 0 || p.last() == '/',
        !w.contains('/'),
    ensures
        components(p + w) == if w.len() == 0 || (w == dot() && p.len() > 0) {
            components(p)
        } else {
            components(p).push(w)
        },
{
    lemma_split_single(w, '/');
    lemma_named_single(w);
    if p.len() == 0 {
        assert(p + w =~= w);
        assert(p =~= Seq::empty());
        if w.len() > 0 {
            assert(seq![w].drop_first() =~= Seq::empty());
            assert(named(seq![w].drop_first()) =~= Seq::empty());
            assert(components(w) =~= seq![w]);
            assert(Seq::<Seq<char>>::empty().push(w) =~= seq![w]);
        } else {
            assert(w =~= Seq::empty());
        }
    } else {
        let a = p.drop_last();
        assert(a.push('/') =~= p);
        lemma_components_concat(a, w);
        lemma_components_slash(a);
        if w.len() == 0 || w == dot() {
            assert(components(p + w) =~= components(p));
        } else {
            assert(components(p + w) =~= components(p).push(w));
        }
    }
}

/// Reading on never takes a component away.
proof fn lemma_components_grow(s: Seq<char>, m: int, n: int)
    requires
        0 <= m <= n <= s.len(),
    ensures
        components(s.take(m)).len() <= components(s.take(n)).len(),
    decreases n - m,
{
    if m < n {
        lemma_components_grow(s, m, n - 1);
        let p = s.take(n - 1);
        let q = s.take(n);
        assert(q.drop_last() =~= p);
        lemma_split_nonempty(p, '/');
        if q.last() == '/' {
            assert(p.push('/') =~= q);
            lemma_components_slash(p);
        } else if p.len() > 0 {
            let pp = split(p, '/');
            let pq = split(q, '/');
            if pp.len() == 1 {
                assert(pp.drop_first() =~= Seq::empty());
                assert(pq.drop_first() =~= Seq::empty());
            } else {
                let f = |p: Seq<char>| p.len() > 0 && p != dot();
                assert(pq.drop_first().drop_last() =~= pp.drop_first().drop_last());
                assert(pp.drop_first().last() == pp.last());
                assert(pq.drop_first().last() == pp.last().push(q.last()));
                assert(f(pp.last()) ==> f(pq.last())) by {
                    if pq.last() == dot() {
                        assert(pp.last().len() == 0);
                    }
                }
                reveal(Seq::filter);
            }
        }
    }
}

/// The components of a joined path.
pub proof fn lemma_components_join(a: Seq<char>, b: Seq<char>)
    ensures
        components(join_text(a, b)) == if b.len() > 0 && b[0] == '/' {
            components(b)
        } else if a.len() == 0 {
            components(b)
        } else {
            components(a) + tail_components(b)
        },
{
    if b.len() > 0 && b[0] == '/' {
    } else if a.len() == 0 {
        assert(a + b =~= b);
    } else if a.last() == '/' {
        let c = a.drop_last();
        assert(c.push('/') =~= a);
        lemma_components_concat(c, b);
        lemma_components_slash(c);
    } else {
        lemma_components_concat(a, b);
    }
}

/// A component as `components` gives them can be appended to a path.
pub open spec fn is_plain(c: Seq<char>) -> bool {
    c.len() > 0 && !c.contains('/') && c != dot()
}

/// Joining a name appends one component.
pub proof fn lemma_components_join_name(a: Seq<char>, c: Seq<char>)
    requires
        is_plain(c),
    ensures
        components(join_text(a, c)) == components(a).push(c),
{
    lemma_components_join(a, c);
    lemma_split_single(c, '/');
    lemma_named_single(c);
    assert(c[0] != '/') by {
        assert(c.contains(c[0]));
    }
    if a.len() == 0 {
        assert(a =~= Seq::empty());
        lemma_components_piece(a, c);
        assert(a + c =~= c);
    } else {
        assert(components(a) + seq![c] =~= components(a).push(c));
    }
}

/// Places in a text, as integers.
pub open spec fn places(r: Seq<(usize, usize)>) -> Seq<(int, int)> {
    r.map_values(|p: (usize, usize)| (p.0 as int, p.1 as int))
}

/// Where the components of a text lie in it.
pub open spec fn located(s: Seq<char>, r: Seq<(int, int)>, k: Key) -> bool {
    &&& r.len() == k.len()
    &&& forall|i: int| #![trigger r[i]] 0 <= i < r.len() ==> located_at(s, r, k, i)
}

/// Component `i` lies where `r` says, and the text up to either end of it has
/// the components up to there.
pub open spec fn located_at(s: Seq<char>, r: Seq<(int, int)>, k: Key, i: int) -> bool {
    &&& r[i].0 < r[i].1 <= s.len()
    &&& s.subrange(r[i].0 as int, r[i].1 as int) == k[i]
    &&& components(s.take(r[i].1 as int)) == k.take(i + 1)
    &&& i == 0 ==> r[i].0 == 0
    &&& i > 0 ==> {
        &&& r[i].0 > 0
        &&& s[r[i].0 - 1] == '/'
        &&& components(s.take(r[i].0 as int)) == k.take(i)
        &&& !k[i].contains('/')
    }
    &&& i == 0 && s[0] == '/' ==> r[i].1 == 1
    &&& i == 0 && s[0] != '/' ==> !k[i].contains('/')
}

/// The end of a component is the shortest start that reaches it.
proof fn lemma_located_shortest(s: Seq<char>, r: Seq<(int, int)>, k: Key, i: int)
    requires
        located(s, r, k),
        0 <= i < k.len(),
    ensures
        is_shortest(s, k.take(i + 1), r[i].1 as int),
{
    let from = r[i].0 as int;
    let to = r[i].1 as int;
    assert(located_at(s, r, k, i));
    assert forall|m: int| 0 <= m < to implies #[trigger] components(s.take(m)) != k.take(i + 1) by {
        if i == 0 && s[0] == '/' {
            assert(s.take(m) =~= Seq::empty());
        } else if m <= from {
            lemma_components_grow(s, m, from);
            if i == 0 {
                assert(s.take(m) =~= Seq::empty());
            }
        } else {
            let p = s.take(from);
            let w = s.subrange(from, m);
            assert(p + w =~= s.take(m));
            assert(!w.contains('/')) by {
                if w.contains('/') {
                    let j = choose|j: int| 0 <= j < w.len() && w[j] == '/';
                    assert(k[i][j] == '/');
                    assert(k[i].contains('/'));
                }
            }
            assert(p.len() == 0 || p.last() == '/');
            lemma_components_piece(p, w);
            if components(s.take(m)) == k.take(i + 1) {
                assert(components(p).len() <= i) by {
                    if i == 0 {
                        assert(p =~= Seq::empty());
                    }
                }
                assert(k.take(i + 1).last() == k[i]);
                assert(components(p).push(w).last() == w);
                assert(w.len() == m - from);
                assert(k[i].len() == to - from);
            }
        }
    }
}

/// Finds the components of a text.
fn locate(s: &Vec<char>) -> (r: Vec<(usize, usize)>)
    ensures
        located(s@, places(r@), components(s@)),
{
    let mut r: Vec<(usize, usize)> = Vec::new();
    let mut i: usize = 0;
    let n: usize = s.len();
    proof {
        assert(s@.take(0) =~= Seq::empty());
    }
    if n > 0 && s[0] == '/' {
        r.push((0, 1));
        i = 1;
        proof {
            assert(s@.take(1) =~= Seq::<char>::empty().push('/'));
            lemma_components_slash(Seq::empty());
            assert(components(s@.take(1)) =~= seq![slash()]);
            assert(s@.subrange(0, 1) =~= slash());
            assert(components(s@.take(1)).take(1) =~= components(s@.take(1)));
        }
    }
    while i < n
        invariant
            n == s@.len(),
            0 <= i <= n,
            i == 0 || s@[i - 1] == '/' || i == n,
            i == 0 && n > 0 ==> s@[0] != '/',
            located(s@, places(r@), components(s@.take(i as int))),
        decreases n - i,
    {
        let start: usize = i;
        let mut j: usize = i;
        while j < n && s[j] != '/'
            invariant
                n == s@.len(),
                start <= j <= n,
                !s@.subrange(start as int, j as int).contains('/'),
            decreases n - j,
        {
            j = j + 1;
            proof {
                let w = s@.subrange(start as int, j as int);
                let v = s@.subrange(start as int, j - 1);
                if w.contains('/') {
                    let x = choose|x: int| 0 <= x < w.len() && w[x] == '/';
                    if x < v.len() {
                        assert(v[x] == '/');
                    }
                }
            }
        }
        let ghost p = s@.take(start as int);
        let ghost w = s@.subrange(start as int, j as int);
        let ghost before = r@;
        proof {
            assert(p + w =~= s@.take(j as int));
            lemma_components_piece(p, w);
        }
        if j > start && !(start > 0 && j == start + 1 && s[start] == '.') {
            proof {
                if w == dot() && p.len() > 0 {
                    assert(w[0] == '.');
                }
            }
            r.push((start, j));
            proof {
                let k = components(s@.take(j as int));
                assert(k == components(p).push(w));
                assert(k.take(k.len() as int) =~= k);
                assert forall|x: int| 0 <= x < r@.len() implies located_at(s@, places(r@), k, x) by {
                    if x < before.len() {
                        assert(places(before)[x] == places(r@)[x]);
                        assert(located_at(s@, places(before), components(p), x));
                        assert(components(p).take(x + 1) =~= k.take(x + 1));
                        assert(components(p).take(x) =~= k.take(x));
                    } else {
                        assert(components(p) =~= k.take(x));
                        if x == 0 {
                            assert(p.len() == 0) by {
                                if p.len() > 0 {
                                    lemma_components_some(p);
                                }
                            }
                        }
                    }
                }
                assert(located(s@, places(r@), k));
            }
        } else {
            proof {
                if j > start {
                    assert(w =~= dot());
                }
            }
        }
        assert(located(s@, places(r@), components(s@.take(j as int))));
        if j < n {
            proof {
                assert(s@.take(j + 1) =~= s@.take(j as int).push('/'));
                lemma_components_slash(s@.take(j as int));
            }
            i = j + 1;
        } else {
            i = j;
        }
    }
    proof {
        assert(s@.take(n as int) =~= s@);
    }
    r
}

/// The empty text adds no component.
pub proof fn lemma_tail_empty()
    ensures
        tail_components(Seq::empty()) == Seq::<Seq<char>>::empty(),
{
    lemma_split_single(Seq::empty(), '/');
    lemma_named_single(Seq::empty());
}

/// The root is its one component.
pub proof fn lemma_components_root()
    ensures
        components(slash()) == seq![slash()],
{
    lemma_components_slash(Seq::empty());
    assert(Seq::<char>::empty().push('/') =~= slash());
}

/// The parent of an absolute path is absolute, and has all components but the
/// last.
pub proof fn lemma_parent_text(s: Seq<char>)
    requires
        s.len() > 0 && s[0] == '/',
        has_parent(components(s)),
    ensures
        parent_text(s).len() > 0 && parent_text(s)[0] == '/',
        components(parent_text(s)) == components(s).drop_last(),
{
    let k = components(s);
    let r = lemma_located_exists(s);
    lemma_components_plain(s, 0);
    if k.len() == 1 {
        assert(k.last() == k[0]);
    } else {
        assert(k.take(k.len() - 1) =~= k.drop_last());
        lemma_located_end(s, r, k, k.len() - 2);
        lemma_located_shortest(s, r, k, k.len() - 2);
        assert(located_at(s, r, k, k.len() - 2));
    }
}

/// Any text at all has a component.
proof fn lemma_components_some(s: Seq<char>)
    requires
        s.len() > 0,
    ensures
        components(s).len() > 0,
{
}

/// A path as it was written.
#[derive(Debug)]
pub struct FilePath {
    text: String,
}

impl View for FilePath {
    type V = Seq<char>;

    closed spec fn view(&self) -> Seq<char> {
        self.text@
    }
}

impl Clone for FilePath {
    fn clone(&self) -> (r: Self)
        ensures
            r == *self,
    {
        FilePath { text: self.text.clone() }
    }
}

impl FilePath {
    /// The components of this path.
    pub open spec fn key(&self) -> Key {
        components(self@)
    }

    pub fn new(text: &str) -> (r: Self)
        ensures
            r@ == text@,
    {
        FilePath { text: text.to_owned() }
    }

    pub fn from_string(text: String) -> (r: Self)
        ensures
            r@ == text@,
    {
        FilePath { text }
    }

    /// The text of this path, as it was written.
    pub fn as_str(&self) -> (r: &str)
        ensures
            r@ == self@,
    {
        self.text.as_str()
    }

    pub fn is_absolute(&self) -> (r: bool)
        ensures
            r == (self@.len() > 0 && self@[0] == '/'),
    {
        self.text.as_str().unicode_len() > 0 && self.text.as_str().get_char(0) == '/'
    }

    /// The components of this path, in order.
    pub fn components(&self) -> (r: Vec<Vec<char>>)
        ensures
            r@.len() == self.key().len(),
            forall|i: int| 0 <= i < r@.len() ==> (#[trigger] r@[i])@ == self.key()[i],
    {
        let chars = chars_of(self.text.as_str());
        let spots = locate(&chars);
        let mut r: Vec<Vec<char>> = Vec::new();
        let mut i: usize = 0;
        while i < spots.len()
            invariant
                located(chars@, places(spots@), components(chars@)),
                i <= spots@.len(),
                r@.len() == i,
                forall|x: int| 0 <= x < i ==> (#[trigger] r@[x])@ == components(chars@)[x],
            decreases spots@.len() - i,
        {
            let (from, to) = spots[i];
            proof {
                assert(located_at(chars@, places(spots@), components(chars@), i as int));
            }
            let piece = copy_range(&chars, from, to);
            r.push(piece);
            i = i + 1;
        }
        r
    }

    /// This path followed by `other`, or `other` alone when it is absolute.
    pub fn join(&self, other: &str) -> (r: Self)
        ensures
            r@ == join_text(self@, other@),
    {
        let here = chars_of(self.text.as_str());
        let next = chars_of(other);
        if next.len() > 0 && next[0] == '/' {
            return FilePath { text: other.to_owned() };
        }
        let mut text = self.text.clone();
        if here.len() > 0 && here[here.len() - 1] != '/' {
            text.push('/');
        }
        text.append(other);
        FilePath { text }
    }

    /// The directory this path lies in: none for the root and the empty path.
    pub fn parent(&self) -> (r: Option<Self>)
        ensures
            r is Some <==> has_parent(self.key()),
            r is Some ==> r->0@ == parent_text(self@) && r->0.key() == self.key().drop_last(),
    {
        let chars = chars_of(self.text.as_str());
        let spots = locate(&chars);
        let ghost k = components(chars@);
        if spots.len() == 0 {
            return None;
        }
        let last = spots[spots.len() - 1];
        proof {
            assert(located_at(chars@, places(spots@), k, k.len() - 1));
        }
        if chars[last.0] == '/' {
            proof {
                if k.len() > 1 {
                    assert(k.last()[0] == '/');
                    assert(k.last().contains('/'));
                }
                assert(k.last() =~= slash());
            }
            return None;
        }
        proof {
            assert(k.last()[0] != '/');
        }
        let end: usize = if spots.len() == 1 {
            0
        } else {
            spots[spots.len() - 2].1
        };
        proof {
            if spots@.len() == 1 {
                assert(chars@.take(0) =~= Seq::empty());
                assert(k.drop_last() =~= Seq::empty());
                assert(is_shortest(chars@, k.drop_last(), 0));
            } else {
                assert(k.take(k.len() - 1) =~= k.drop_last());
                assert(located_at(chars@, places(spots@), k, k.len() - 2));
                lemma_located_shortest(chars@, places(spots@), k, k.len() - 2);
            }
            assert(is_shortest(chars@, k.drop_last(), end as int));
            let n = shortest(chars@, k.drop_last());
            assert(is_shortest(chars@, k.drop_last(), n));
            assert(n == end) by {
                if n < end {
                    assert(components(chars@.take(n)) != k.drop_last());
                } else if end < n {
                    assert(components(chars@.take(end as int)) != k.drop_last());
                }
            }
            assert(chars@.subrange(0, end as int) =~= chars@.take(end as int));
        }
        Some(FilePath { text: string_of(&chars, 0, end) })
    }

    /// The last component, when it names an entry of a directory.
    pub fn file_name(&self) -> (r: Option<String>)
        ensures
            r is Some <==> self.key().len() > 0 && is_name(self.key().last()),
            r is Some ==> r->0@ == self.key().last(),
    {
        let chars = chars_of(self.text.as_str());
        let spots = locate(&chars);
        let ghost k = components(chars@);
        if spots.len() == 0 {
            return None;
        }
        let (from, to) = spots[spots.len() - 1];
        proof {
            assert(located_at(chars@, places(spots@), k, k.len() - 1));
            let last = k.last();
            assert(last == chars@.subrange(from as int, to as int));
            if last.len() == 1 && last[0] == '/' {
                assert(last =~= slash());
            }
            if last.len() == 1 && last[0] == '.' {
                assert(last =~= dot());
            }
            if last.len() == 2 && last[0] == '.' && last[1] == '.' {
                assert(last =~= dot_dot());
            }
        }
        if to - from == 1 && (chars[from] == '/' || chars[from] == '.') {
            return None;
        }
        if to - from == 2 && chars[from] == '.' && chars[from + 1] == '.' {
            return None;
        }
        Some(string_of(&chars, from, to))
    }

    /// Whether this path is `base` or lies below it.
    pub fn starts_with(&self, base: &FilePath) -> (r: bool)
        ensures
            r == under(self.key(), base.key()),
    {
        let mine = self.components();
        let theirs = base.components();
        if theirs.len() > mine.len() {
            return false;
        }
        let mut i: usize = 0;
        while i < theirs.len()
            invariant
                i <= theirs@.len() <= mine@.len(),
                mine@.len() == self.key().len(),
                theirs@.len() == base.key().len(),
                forall|x: int| 0 <= x < mine@.len() ==> (#[trigger] mine@[x])@ == self.key()[x],
                forall|x: int| 0 <= x < theirs@.len() ==> (#[trigger] theirs@[x])@ == base.key()[x],
                forall|x: int| 0 <= x < i ==> self.key()[x] == base.key()[x],
            decreases theirs@.len() - i,
        {
            if !same_chars(&mine[i], &theirs[i]) {
                assert(self.key()[i as int] != base.key()[i as int]);
                assert(self.key().subrange(0, base.key().len() as int)[i as int] == self.key()[i as int]);
                return false;
            }
            i = i + 1;
        }
        assert(base.key() =~= self.key().subrange(0, base.key().len() as int));
        true
    }

    /// Whether both paths have the same components.
    pub fn same(&self, other: &FilePath) -> (r: bool)
        ensures
            r == (self.key() == other.key()),
    {
        let r = self.starts_with(other) && other.starts_with(self);
        proof {
            if r {
                assert(self.key() =~= other.key());
            } else if self.key() == other.key() {
                assert(self.key() =~= self.key().subrange(0, self.key().len() as int));
            }
        }
        r
    }

    /// What is left of this path below `base`, when it lies there.
    pub fn strip_prefix(&self, base: &FilePath) -> (r: Option<Self>)
        ensures
            r is Some <==> under(self.key(), base.key()),
            r is Some ==> r->0@ == strip_text(self@, base.key().len() as int),
    {
        if !self.starts_with(base) {
            return None;
        }
        let chars = chars_of(self.text.as_str());
        let spots = locate(&chars);
        let skipped: usize = base.components().len();
        let ghost k = components(chars@);
        assert(skipped <= k.len());
        if skipped == spots.len() {
            return Some(FilePath { text: String::new() });
        }
        let from: usize = spots[skipped].0;
        let to: usize = spots[spots.len() - 1].1;
        proof {
            lemma_located_end(chars@, places(spots@), k, skipped as int);
            lemma_located_end(chars@, places(spots@), k, k.len() - 1);
            assert(located_at(chars@, places(spots@), k, skipped as int));
            lemma_located_order(chars@, places(spots@), k, skipped as int, k.len() - 1);
        }
        Some(FilePath { text: string_of(&chars, from, to) })
    }
}

impl PartialEq for FilePath {
    fn eq(&self, other: &Self) -> (r: bool) {
        self.same(other)
    }
}

impl vstd::std_specs::cmp::PartialEqSpecImpl for FilePath {
    open spec fn obeys_eq_spec() -> bool {
        true
    }

    open spec fn eq_spec(&self, other: &Self) -> bool {
        self.key() == other.key()
    }
}

/// Where component `i` of `s` ends.
pub open spec fn end_of(s: Seq<char>, i: int) -> int {
    shortest(s, components(s).take(i + 1))
}

/// The text of `s` from component `n` to its last one.
pub open spec fn strip_text(s: Seq<char>, n: int) -> Seq<char> {
    let k = components(s);
    if n >= k.len() {
        Seq::empty()
    } else {
        s.subrange(end_of(s, n) - k[n].len(), end_of(s, k.len() - 1))
    }
}

/// `end_of` gives the place where a component was found to end.
proof fn lemma_located_end(s: Seq<char>, r: Seq<(int, int)>, k: Key, i: int)
    requires
        located(s, r, k),
        k == components(s),
        0 <= i < k.len(),
    ensures
        end_of(s, i) == r[i].1,
{
    lemma_located_shortest(s, r, k, i);
    let end = r[i].1 as int;
    let n = end_of(s, i);
    assert(is_shortest(s, k.take(i + 1), n));
    if n < end {
        assert(components(s.take(n)) != k.take(i + 1));
    } else if end < n {
        assert(components(s.take(end)) != k.take(i + 1));
    }
}

/// Components lie one behind the other.
proof fn lemma_located_order(s: Seq<char>, r: Seq<(int, int)>, k: Key, i: int, j: int)
    requires
        located(s, r, k),
        0 <= i <= j < k.len(),
    ensures
        r[i].0 < r[j].1,
        i < j ==> r[i].1 <= r[j].1,
{
    assert(located_at(s, r, k, i));
    assert(located_at(s, r, k, j));
    if i < j && r[j].1 < r[i].1 {
        lemma_components_grow(s, r[j].1 as int, r[i].1 as int);
    }
}

/// Every text has its components somewhere.
proof fn lemma_located_exists(s: Seq<char>) -> (r: Seq<(int, int)>)
    ensures
        located(s, r, components(s)),
    decreases s.len(),
{
    let k = components(s);
    if s.len() == 0 {
        return Seq::empty();
    }
    // The last piece starts after the last separator, or at the very start.
    let m = last_separator(s);
    lemma_last_separator(s);
    let p = s.take(m);
    let w = s.skip(m);
    assert(p + w =~= s);
    lemma_components_piece(p, w);
    if m == 0 {
        assert(p =~= Seq::empty());
        let r = seq![(0int, s.len() as int)];
        assert(w =~= s);
        assert(components(p).push(w) =~= seq![s]);
        assert(s.subrange(0, s.len() as int) =~= s);
        assert(s.take(s.len() as int) =~= s);
        assert(k.take(1) =~= k);
        assert(w.contains(s[0]));
        assert(located_at(s, r, k, 0));
        r
    } else {
        let q = s.take(m - 1);
        assert(q.push('/') =~= p);
        lemma_components_slash(q);
        let rp = if q.len() == 0 {
            let r0 = seq![(0int, 1int)];
            assert(p =~= slash());
            assert(components(p) =~= seq![slash()]);
            assert(s.subrange(0, 1) =~= slash());
            assert(s.take(1) =~= p);
            assert(components(p).take(1) =~= components(p));
            assert(located_at(s, r0, components(p), 0));
            r0
        } else {
            let r0 = lemma_located_exists(q);
            assert forall|x: int| 0 <= x < r0.len() implies #[trigger] located_at(
                s,
                r0,
                components(p),
                x,
            ) by {
                assert(located_at(q, r0, components(q), x));
                assert(s.subrange(r0[x].0 as int, r0[x].1 as int) =~= q.subrange(
                    r0[x].0 as int,
                    r0[x].1 as int,
                ));
                assert(s.take(r0[x].0 as int) =~= q.take(r0[x].0 as int));
                assert(s.take(r0[x].1 as int) =~= q.take(r0[x].1 as int));
            }
            r0
        };
        if w.len() == 0 || w == dot() {
            rp
        } else {
            let r = rp.push((m, s.len() as int));
            assert forall|x: int| 0 <= x < r.len() implies #[trigger] located_at(s, r, k, x) by {
                if x < rp.len() {
                    assert(rp[x] == r[x]);
                    assert(located_at(s, rp, components(p), x));
                    assert(components(p).take(x + 1) =~= k.take(x + 1));
                    assert(components(p).take(x) =~= k.take(x));
                } else {
                    assert(s.subrange(m, s.len() as int) =~= w);
                    assert(s.take(s.len() as int) =~= s);
                    assert(k.take(x + 1) =~= k);
                    assert(k.take(x) =~= components(p));
                    lemma_components_some(p);
                }
            }
            r
        }
    }
}

/// The place behind the last separator of `s`.
spec fn last_separator(s: Seq<char>) -> int
    decreases s.len(),
{
    if s.len() == 0 || s.last() == '/' {
        s.len() as int
    } else {
        last_separator(s.drop_last())
    }
}

proof fn lemma_last_separator(s: Seq<char>)
    ensures
        0 <= last_separator(s) <= s.len(),
        !s.skip(last_separator(s)).contains('/'),
        last_separator(s) > 0 ==> s[last_separator(s) - 1] == '/',
    decreases s.len(),
{
    if s.len() == 0 || s.last() == '/' {
        assert(s.skip(s.len() as int) =~= Seq::empty());
    } else {
        lemma_last_separator(s.drop_last());
        let m = last_separator(s);
        let w = s.skip(m);
        if w.contains('/') {
            let i = choose|i: int| 0 <= i < w.len() && w[i] == '/';
            assert(s.drop_last().skip(m)[i] == '/');
        }
    }
}

/// What is left below the first `n` components has the others.
pub proof fn lemma_strip_components(s: Seq<char>, n: int)
    requires
        0 < n <= components(s).len(),
    ensures
        tail_components(strip_text(s, n)) == components(s).skip(n),
        strip_text(s, n).len() > 0 ==> strip_text(s, n)[0] != '/',
{
    let k = components(s);
    let t = strip_text(s, n);
    if n == k.len() {
        lemma_split_single(Seq::empty(), '/');
        lemma_named_single(Seq::empty());
        assert(k.skip(n) =~= Seq::empty());
    } else {
        let r = lemma_located_exists(s);
        lemma_located_end(s, r, k, n);
        lemma_located_end(s, r, k, k.len() - 1);
        lemma_located_order(s, r, k, n, k.len() - 1);
        assert(located_at(s, r, k, n));
        assert(located_at(s, r, k, k.len() - 1));
        let from = r[n].0 as int;
        let to = r[k.len() - 1].1 as int;
        let a = s.take(from - 1);
        assert(a.push('/') =~= s.take(from));
        assert(a.push('/') + t =~= s.take(to));
        lemma_components_concat(a, t);
        lemma_components_slash(a);
        assert(k.take(k.len() as int) =~= k);
        assert(k =~= k.take(n) + tail_components(t));
        assert(tail_components(t) =~= k.skip(n));
        assert(t[0] == k[n][0]);
        assert(k[n].contains(k[n][0]));
    }
}

/// Behind the first component there are only plain ones.
pub proof fn lemma_components_plain(s: Seq<char>, i: int)
    requires
        0 <= i < components(s).len(),
    ensures
        i > 0 ==> is_plain(components(s)[i]),
        i == 0 ==> components(s)[0] == slash() || (components(s)[0].len() > 0
            && !components(s)[0].contains('/')),
        i == 0 ==> (components(s)[0] == slash() <==> s[0] == '/'),
{
    let pieces = split(s, '/');
    lemma_split_nonempty(s, '/');
    if i > 0 {
        let rest = pieces.drop_first();
        let f = |p: Seq<char>| p.len() > 0 && p != dot();
        rest.lemma_filter_pred(f, i - 1);
        let c = named(rest)[i - 1];
        assert(named(rest).contains(c));
        rest.lemma_filter_contains_rev(f, c);
        let j = choose|j: int| 0 <= j < rest.len() && rest[j] == c;
        lemma_split_pieces(s, '/', j + 1);
    } else {
        lemma_split_pieces(s, '/', 0);
        lemma_first_piece(s);
        assert(slash().contains('/')) by {
            assert(slash()[0] == '/');
        }
    }
}

proof fn lemma_first_piece(s: Seq<char>)
    requires
        s.len() > 0,
    ensures
        split(s, '/')[0].len() == 0 <==> s[0] == '/',
        s[0] == '/' ==> split(s, '/').len() > 1,
    decreases s.len(),
{
    lemma_split_nonempty(s.drop_last(), '/');
    if s.len() > 1 {
        lemma_first_piece(s.drop_last());
        assert(s.drop_last()[0] == s[0]);
    } else {
        assert(s.drop_last() =~= Seq::empty());
        assert(s.last() == s[0]);
    }
}

/// Whether both texts have the same characters.
pub fn same_chars(a: &Vec<char>, b: &Vec<char>) -> (r: bool)
    ensures
        r == (a@ == b@),
{
    if a.len() != b.len() {
        return false;
    }
    let mut i: usize = 0;
    while i < a.len()
        invariant
            a@.len() == b@.len(),
            i <= a@.len(),
            forall|x: int| 0 <= x < i ==> a@[x] == b@[x],
        decreases a@.len() - i,
    {
        if a[i] != b[i] {
            return false;
        }
        i = i + 1;
    }
    assert(a@ =~= b@);
    true
}

/// Whether both texts are the same.
pub fn same_text(a: &str, b: &str) -> (r: bool)
    ensures
        r == (a@ == b@),
{
    same_chars(&chars_of(a), &chars_of(b))
}

/// The texts of paths that may be missing.
pub open spec fn opt_text(p: Option<FilePath>) -> Option<Seq<char>> {
    match p {
        Some(path) => Some(path@),
        None => None,
    }
}

/// The characters of `v` from `from` up to `to`.
pub fn copy_range(v: &Vec<char>, from: usize, to: usize) -> (r: Vec<char>)
    requires
        from <= to <= v@.len(),
    ensures
        r@ == v@.subrange(from as int, to as int),
{
    let mut r: Vec<char> = Vec::new();
    let mut i: usize = from;
    while i < to
        invariant
            from <= i <= to <= v@.len(),
            r@ == v@.subrange(from as int, i as int),
        decreases to - i,
    {
        r.push(v[i]);
        i = i + 1;
        assert(v@.subrange(from as int, i as int) =~= v@.subrange(from as int, i - 1).push(v@[i - 1]));
    }
    r
}

/// What is left of a path behind all its components but the last is the last.
pub proof fn law_last_component_is_left(s: Seq<char>)
    requires
        components(s).len() > 0,
    ensures
        strip_text(s, components(s).len() - 1) == components(s).last(),
        strip_text(s, components(s).len() as int) == Seq::<char>::empty(),
{
    let k = components(s);
    let i = k.len() - 1;
    let r = lemma_located_exists(s);
    lemma_located_end(s, r, k, i);
    assert(located_at(s, r, k, i));
    assert(s.subrange(r[i].0 as int, r[i].1 as int) == k[i]);
    assert(strip_text(s, i) =~= k[i]);
}

/// Two paths are equal exactly where they have the same components, however they are
/// written.
pub proof fn law_equal_paths_have_equal_components(a: FilePath, b: FilePath)
    ensures
        vstd::std_specs::cmp::PartialEqSpec::eq_spec(&a, &b) <==> components(a@) == components(b@),
        a.key() == components(a@),
{
}

} // verus!
