//! What paths, names and numbers look like, character by character.

use vstd::prelude::*;

use crate::command::last_name;
use crate::command::tidied;
use crate::decimal::decimal;
use crate::encoder::encoded;
use crate::links::normalized;
use crate::links::path_text;
use crate::order::component_lt;
use crate::order::key_lt;
use crate::order::text_lt;
use crate::path::components;
use crate::path::dot;
use crate::path::dot_dot;
use crate::path::has_parent;
use crate::path::join_text;
use crate::path::lemma_components_concat;
use crate::path::lemma_components_join;
use crate::path::lemma_components_plain;
use crate::path::lemma_components_root;
use crate::path::lemma_parent_text;
use crate::path::lemma_tail_empty;
use crate::path::parent_text;
use crate::path::slash;
use crate::path::tail_components;
use crate::path::under;
use crate::path::Key;

verus! {

/// The text `c` can be the name of an entry: it holds a character, no separator, and
/// is neither of the two names that lead somewhere else.
pub open spec fn is_entry_name(c: Seq<char>) -> bool {
    c.len() > 0 && !c.contains('/') && c != seq!['.'] && c != seq!['.', '.']
}

/// The components of an absolute path: the root, then names of entries.
pub open spec fn is_straight(k: Key) -> bool {
    &&& k.len() > 0 && k[0] == seq!['/']
    &&& forall|i: int| 0 < i < k.len() ==> is_entry_name(#[trigger] k[i])
}

/// `n` times one directory up.
pub open spec fn climbs(n: nat) -> Key {
    Seq::new(n, |i: int| seq!['.', '.'])
}

proof fn lemma_tail_of_piece(c: Seq<char>)
    requires
        !c.contains('/'),
    ensures
        tail_components(c) == if c.len() > 0 && c != seq!['.'] {
            seq![c]
        } else {
            Seq::<Seq<char>>::empty()
        },
        c.len() > 0 ==> components(c) == seq![c],
{
    crate::text::lemma_split_single(c, '/');
    let pieces = seq![c];
    let f = |p: Seq<char>| p.len() > 0 && p != dot();
    reveal_with_fuel(Seq::filter, 2);
    assert(pieces.drop_last() =~= Seq::empty());
    assert(pieces.filter(f) =~= if f(c) {
        seq![c]
    } else {
        Seq::empty()
    });
    assert(dot() =~= seq!['.']);
    assert(pieces.drop_first() =~= Seq::empty());
    assert(pieces.drop_first().filter(f) =~= Seq::empty());
    if c.len() > 0 {
        assert(components(c) =~= seq![c]);
    }
}

/// The components of a path are the names between its separators. An empty text has
/// none, a separator at the front is the root, a name behind a path is one component
/// more, and neither a separator at the end nor a single dot adds anything.
pub proof fn law_components_are_the_names(s: Seq<char>, c: Seq<char>)
    requires
        c.len() > 0 && !c.contains('/'),
    ensures
        components(Seq::empty()) == Seq::<Seq<char>>::empty(),
        components(seq!['/']) == seq![seq!['/']],
        components(c) == seq![c],
        c != seq!['.'] ==> components(seq!['/'] + c) == seq![seq!['/'], c],
        s.len() > 0 ==> components(s.push('/')) == components(s),
        s.len() > 0 && c == seq!['.'] ==> components(s.push('/') + c) == components(s),
        s.len() > 0 && c != seq!['.'] ==> components(s.push('/') + c) == components(s).push(c),
{
    lemma_tail_of_piece(c);
    lemma_tail_empty();
    lemma_components_root();
    assert(slash() =~= seq!['/']);
    lemma_components_concat(s, c);
    lemma_components_concat(s, Seq::empty());
    assert(s.push('/') + Seq::<char>::empty() =~= s.push('/'));
    lemma_components_concat(Seq::empty(), c);
    assert(Seq::<char>::empty().push('/') + c =~= seq!['/'] + c);
    assert(seq![slash()] + seq![c] =~= seq![seq!['/'], c]);
    assert(components(s) + seq![c] =~= components(s).push(c));
    assert(components(s) + Seq::<Seq<char>>::empty() =~= components(s));
}

/// A path that is joined to another follows it, with one separator between them, and
/// an absolute one stands by itself.
pub proof fn law_joined_paths_follow(a: Seq<char>, b: Seq<char>)
    ensures
        b.len() > 0 && b[0] == '/' ==> join_text(a, b) == b,
        !(b.len() > 0 && b[0] == '/') && a.len() > 0 && a.last() != '/' ==> join_text(a, b) == a
            + seq!['/'] + b,
        !(b.len() > 0 && b[0] == '/') && a.len() > 0 && a.last() == '/' ==> join_text(a, b) == a
            + b,
        join_text(Seq::empty(), b) == b,
{
    assert(a.push('/') + b =~= a + seq!['/'] + b);
    assert(Seq::<char>::empty() + b =~= b);
}

/// One path leads to another or below it exactly where the other's components come
/// first in it.
pub proof fn law_below_starts_alike(k: Key, base: Key, rest: Key)
    ensures
        under(base + rest, base),
        under(k, base) ==> k == base + k.skip(base.len() as int),
        under(k, base) && under(base, k) ==> k == base,
{
    assert((base + rest).subrange(0, base.len() as int) =~= base);
    if under(k, base) {
        assert(k.subrange(0, base.len() as int) =~= base);
        assert(k =~= base + k.skip(base.len() as int));
    }
}

/// The parent of an absolute path has all its components but the last.
pub proof fn law_parent_drops_the_last(s: Seq<char>)
    requires
        s.len() > 0 && s[0] == '/',
        components(s).len() > 1,
    ensures
        components(parent_text(s)) == components(s).drop_last(),
{
    let k = components(s);
    let i = k.len() - 1;
    lemma_components_plain(s, i);
    assert(k.last() != slash()) by {
        assert(slash()[0] == '/');
        if k[i] == slash() {
            assert(k[i].contains(k[i][0]));
        }
    }
    lemma_parent_text(s);
}

/// The encoded name of a path has one character for each of its characters, but for a
/// separator at the end: ASCII letters, digits and hyphens stay, and anything else
/// becomes a hyphen.
pub proof fn law_encoded_characters(s: Seq<char>, i: int)
    ensures
        encoded(s).len() == if s.len() > 1 && s.last() == '/' {
            s.len() - 1
        } else {
            s.len() as int
        },
        0 <= i < encoded(s).len() ==> encoded(s)[i] == if ('a' <= s[i] && s[i] <= 'z') || ('A'
            <= s[i] && s[i] <= 'Z') || ('0' <= s[i] && s[i] <= '9') || s[i] == '-' {
            s[i]
        } else {
            '-'
        },
{
}

/// The number that decimal digits stand for.
pub open spec fn value_of(digits: Seq<char>) -> int
    decreases digits.len(),
{
    if digits.len() == 0 {
        0
    } else {
        10 * value_of(digits.drop_last()) + (digits.last() as int - '0' as int)
    }
}

/// A number that is written out reads back as itself: it is made of decimal digits,
/// with none too many, and they stand for the number.
pub proof fn law_decimal_reads_back(n: nat)
    ensures
        value_of(decimal(n)) == n,
        decimal(n).len() > 0,
        decimal(n).len() > 1 ==> decimal(n)[0] != '0',
        forall|i: int|
            0 <= i < decimal(n).len() ==> '0' <= #[trigger] decimal(n)[i] && decimal(n)[i] <= '9',
    decreases n,
{
    if n < 10 {
        assert(decimal(n).drop_last() =~= Seq::empty());
        reveal_with_fuel(value_of, 2);
    } else {
        law_decimal_reads_back(n / 10);
        let init = decimal(n / 10);
        assert(decimal(n).drop_last() =~= init);
        assert(n == 10 * (n / 10) + n % 10);
        assert(decimal(n)[0] == init[0]);
        if init.len() == 1 {
            assert(init.drop_last() =~= Seq::empty());
            reveal_with_fuel(value_of, 2);
        }
    }
}

/// Texts are ordered like words: the first character in which they differ decides,
/// and a text comes before every longer one that starts with it.
pub proof fn law_texts_are_ordered(p: Seq<char>, c: char, s: Seq<char>, d: char, t: Seq<char>)
    ensures
        c != d ==> text_lt(p + seq![c] + s, p + seq![d] + t) == (c < d),
        text_lt(p, p + seq![c] + s),
        !text_lt(p + seq![c] + s, p),
        !text_lt(p, p),
    decreases p.len(),
{
    let a = p + seq![c] + s;
    let b = p + seq![d] + t;
    if p.len() > 0 {
        law_texts_are_ordered(p.drop_first(), c, s, d, t);
        assert(a.drop_first() =~= p.drop_first() + seq![c] + s);
        assert(b.drop_first() =~= p.drop_first() + seq![d] + t);
    } else {
        assert(a[0] == c && b[0] == d);
    }
}

/// Paths are ordered by their components: the first name in which they differ decides,
/// as a text, and a directory comes before what is in it.
pub proof fn law_paths_are_ordered(k: Key, c: Seq<char>, s: Key, d: Seq<char>, t: Key)
    requires
        is_entry_name(c) && is_entry_name(d),
    ensures
        c != d ==> key_lt(k + seq![c] + s, k + seq![d] + t) == text_lt(c, d),
        key_lt(k, k + seq![c] + s),
        !key_lt(k + seq![c] + s, k),
        !key_lt(k, k),
    decreases k.len(),
{
    let a = k + seq![c] + s;
    let b = k + seq![d] + t;
    if k.len() > 0 {
        law_paths_are_ordered(k.drop_first(), c, s, d, t);
        assert(a.drop_first() =~= k.drop_first() + seq![c] + s);
        assert(b.drop_first() =~= k.drop_first() + seq![d] + t);
    } else {
        assert(a[0] == c && b[0] == d);
        assert(slash()[0] == '/');
        assert(c != slash()) by {
            assert(c.contains(c[0]));
        }
        assert(d != slash()) by {
            assert(d.contains(d[0]));
        }
        assert(dot() =~= seq!['.'] && dot_dot() =~= seq!['.', '.']);
    }
}

/// A path that is tidied up is read name by name: each name is one component more, a
/// single dot says nothing, and each pair of dots takes back exactly one name, as long
/// as there is one.
pub proof fn law_each_climb_takes_one_name(k: Key, c: Seq<char>)
    requires
        is_entry_name(c) || c == seq!['/'],
    ensures
        tidied(Seq::empty()) == Seq::<Seq<char>>::empty(),
        tidied(k.push(c)) == tidied(k).push(c),
        tidied(k.push(seq!['.'])) == tidied(k),
        tidied(k.push(seq!['.', '.'])) == if tidied(k).len() > 0 && tidied(k).last() != seq!['/'] {
            tidied(k).drop_last()
        } else {
            tidied(k)
        },
{
    assert(dot() =~= seq!['.'] && dot_dot() =~= seq!['.', '.'] && slash() =~= seq!['/']);
    assert(seq!['.'].len() == 1 && seq!['.', '.'].len() == 2);
    assert(seq!['/'][0] == '/' && seq!['.'][0] == '.');
    assert(k.push(c).drop_last() =~= k);
    assert(k.push(seq!['.']).drop_last() =~= k);
    assert(k.push(seq!['.', '.']).drop_last() =~= k);
}

/// Going up several times from an absolute path takes back as many names, and goes on
/// from there; nothing is above the root.
pub proof fn law_climbing_takes_names_back(k: Key, n: nat, rest: Key)
    requires
        is_straight(k),
        forall|i: int| 0 <= i < rest.len() ==> is_entry_name(#[trigger] rest[i]),
    ensures
        n < k.len() ==> tidied(k + climbs(n) + rest) == k.take(k.len() - n) + rest,
        n >= k.len() ==> tidied(k + climbs(n) + rest) == seq![seq!['/']] + rest,
    decreases k.len() + n + rest.len(),
{
    if rest.len() > 0 {
        let init = rest.drop_last();
        assert forall|i: int| 0 <= i < init.len() implies is_entry_name(#[trigger] init[i]) by {
            assert(init[i] == rest[i]);
        }
        law_climbing_takes_names_back(k, n, init);
        assert(k + climbs(n) + rest =~= (k + climbs(n) + init).push(rest.last()));
        assert(is_entry_name(rest[rest.len() - 1]));
        law_each_climb_takes_one_name(k + climbs(n) + init, rest.last());
        assert(init.push(rest.last()) =~= rest);
        assert(k.take(k.len() - n) + rest =~= (k.take(k.len() - n) + init).push(rest.last()));
        assert(seq![seq!['/']] + rest =~= (seq![seq!['/']] + init).push(rest.last()));
    } else if n > 0 {
        let m = (n - 1) as nat;
        law_climbing_takes_names_back(k, m, rest);
        assert(k + climbs(n) + rest =~= (k + climbs(m) + rest).push(seq!['.', '.']));
        law_each_climb_takes_one_name(k + climbs(m) + rest, seq!['/']);
        if n < k.len() {
            assert(k.take(k.len() - m) + rest =~= k.take(k.len() - m));
            assert(is_entry_name(k[k.len() - m - 1]));
            assert(k.take(k.len() - m).last() != seq!['/']) by {
                assert(seq!['/'][0] == '/');
                let c = k[k.len() - m - 1];
                assert(c.contains(c[0]));
            }
            assert(k.take(k.len() - m).drop_last() =~= k.take(k.len() - n) + rest);
        } else if m < k.len() {
            assert(k.take(k.len() - m) + rest =~= seq![seq!['/']]);
            assert(seq![seq!['/']] + rest =~= seq![seq!['/']]);
        } else {
            assert(seq![seq!['/']] + rest =~= seq![seq!['/']]);
        }
    } else {
        assert(k + climbs(0) + rest =~= k);
        assert(k.take(k.len() as int) + rest =~= k);
        lemma_straight_stays(k);
    }
}

proof fn lemma_straight_stays(k: Key)
    requires
        is_straight(k),
    ensures
        tidied(k) == k,
        normalized(k) == k,
    decreases k.len(),
{
    let init = k.drop_last();
    let c = k.last();
    assert(dot() =~= seq!['.'] && dot_dot() =~= seq!['.', '.'] && slash() =~= seq!['/']);
    assert(seq!['/'][0] == '/' && seq!['.'][0] == '.' && seq!['.', '.'][0] == '.');
    if k.len() == 1 {
        assert(init =~= Seq::empty());
        law_each_climb_takes_one_name(init, c);
        law_each_climb_of_a_link_takes_one_name(init, c);
        assert(init.push(c) =~= k);
    } else {
        assert forall|i: int| 0 < i < init.len() implies is_entry_name(#[trigger] init[i]) by {
            assert(init[i] == k[i]);
        }
        lemma_straight_stays(init);
        assert(is_entry_name(k[k.len() - 1]));
        assert(init.push(c) =~= k);
    }
}

/// A path that has nothing to tidy up stays as it is, and what comes of an absolute
/// path has nothing left to tidy up and reads as what it says.
pub proof fn law_tidied_path_is_straight(k: Key)
    requires
        k.len() > 0 && k[0] == seq!['/'],
        forall|i: int|
            0 < i < k.len() ==> (#[trigger] k[i]).len() > 0 && !k[i].contains('/'),
    ensures
        is_straight(tidied(k)),
        is_straight(k) ==> tidied(k) == k,
        components(path_text(tidied(k))) == tidied(k),
        path_text(tidied(k))[0] == '/',
{
    lemma_tidied_straight(k);
    if is_straight(k) {
        lemma_straight_stays(k);
    }
    lemma_straight_text(tidied(k));
}

proof fn lemma_tidied_straight(k: Key)
    requires
        k.len() > 0 && k[0] == seq!['/'],
        forall|i: int|
            0 < i < k.len() ==> (#[trigger] k[i]).len() > 0 && !k[i].contains('/'),
    ensures
        is_straight(tidied(k)),
    decreases k.len(),
{
    let init = k.drop_last();
    let c = k.last();
    assert(dot() =~= seq!['.'] && dot_dot() =~= seq!['.', '.'] && slash() =~= seq!['/']);
    assert(seq!['/'][0] == '/' && seq!['.'][0] == '.' && seq!['.', '.'][0] == '.');
    if k.len() == 1 {
        lemma_straight_stays(k);
    } else {
        assert forall|i: int| 0 < i < init.len() implies (#[trigger] init[i]).len() > 0
            && !init[i].contains('/') by {
            assert(init[i] == k[i]);
        }
        lemma_tidied_straight(init);
        let t = tidied(init);
        assert(k[k.len() - 1] == c);
        assert(init.push(c) =~= k);
        if is_entry_name(c) {
            law_each_climb_takes_one_name(init, c);
        } else {
            law_each_climb_takes_one_name(init, seq!['/']);
            assert forall|i: int| 0 < i < tidied(k).len() implies is_entry_name(
                #[trigger] tidied(k)[i],
            ) by {
                assert(tidied(k)[i] == t[i]);
            }
        }
    }
}

pub(crate) proof fn lemma_straight_text(k: Key)
    requires
        is_straight(k),
    ensures
        components(path_text(k)) == k,
        path_text(k).len() > 0 && path_text(k)[0] == '/',
        k.len() == 1 ==> path_text(k) == seq!['/'],
        k.len() > 1 ==> path_text(k).last() != '/',
    decreases k.len(),
{
    let init = k.drop_last();
    let c = k.last();
    assert(slash() =~= seq!['/'] && dot() =~= seq!['.']);
    lemma_components_root();
    if k.len() == 1 {
        assert(init =~= Seq::empty());
        assert(path_text(init) =~= Seq::empty());
        assert(path_text(k) =~= seq!['/']);
        assert(k =~= seq![seq!['/']]);
    } else {
        assert forall|i: int| 0 < i < init.len() implies is_entry_name(#[trigger] init[i]) by {
            assert(init[i] == k[i]);
        }
        lemma_straight_text(init);
        assert(is_entry_name(k[k.len() - 1]));
        lemma_tail_of_piece(c);
        assert(c[0] != '/') by {
            assert(c.contains(c[0]));
        }
        assert(c.last() != '/') by {
            assert(c.contains(c.last()));
        }
        lemma_components_join(path_text(init), c);
        assert(init + seq![c] =~= k);
    }
}

/// The text of an absolute path is its names, each behind a separator.
pub proof fn law_path_text_is_its_names(k: Key, c: Seq<char>)
    requires
        is_straight(k),
        is_entry_name(c),
    ensures
        path_text(seq![seq!['/']]) == seq!['/'],
        path_text(k.push(c)) == if k.len() == 1 {
            seq!['/'] + c
        } else {
            path_text(k) + seq!['/'] + c
        },
        components(path_text(k)) == k,
{
    lemma_straight_text(k);
    let root = seq![seq!['/']];
    assert(is_straight(root));
    lemma_straight_text(root);
    assert(k.push(c).drop_last() =~= k);
    assert(c[0] != '/') by {
        assert(c.contains(c[0]));
    }
    law_joined_paths_follow(path_text(k), c);
}

/// Where a link leads is read name by name, like a path that is tidied up, but that
/// climbing out of a relative path is kept.
pub proof fn law_each_climb_of_a_link_takes_one_name(k: Key, c: Seq<char>)
    requires
        is_entry_name(c) || c == seq!['/'],
    ensures
        normalized(Seq::empty()) == Seq::<Seq<char>>::empty(),
        normalized(k.push(c)) == normalized(k).push(c),
        normalized(k.push(seq!['.'])) == normalized(k),
        normalized(k.push(seq!['.', '.'])) == if normalized(k).len() == 0 || normalized(k).last()
            == seq!['.', '.'] {
            normalized(k).push(seq!['.', '.'])
        } else if normalized(k).last() == seq!['/'] {
            normalized(k)
        } else {
            normalized(k).drop_last()
        },
{
    assert(dot() =~= seq!['.'] && dot_dot() =~= seq!['.', '.'] && slash() =~= seq!['/']);
    assert(seq!['.'].len() == 1 && seq!['.', '.'].len() == 2);
    assert(seq!['/'][0] == '/' && seq!['.'][0] == '.' && seq!['.', '.'][0] == '.');
    assert(k.push(c).drop_last() =~= k);
    assert(k.push(seq!['.']).drop_last() =~= k);
    assert(k.push(seq!['.', '.']).drop_last() =~= k);
}

/// Where two paths part, the root comes first, then a single dot, then a pair of dots,
/// then the names.
pub proof fn law_special_components_come_first(k: Key, c: Seq<char>, s: Key, t: Key)
    requires
        is_entry_name(c),
    ensures
        key_lt(k + seq![seq!['/']] + s, k + seq![seq!['.']] + t),
        key_lt(k + seq![seq!['.']] + s, k + seq![seq!['.', '.']] + t),
        key_lt(k + seq![seq!['.', '.']] + s, k + seq![c] + t),
        key_lt(k + seq![seq!['/']] + s, k + seq![c] + t),
        key_lt(k + seq![seq!['.']] + s, k + seq![c] + t),
{
    assert(dot() =~= seq!['.'] && dot_dot() =~= seq!['.', '.'] && slash() =~= seq!['/']);
    assert(seq!['/'][0] == '/' && seq!['.'][0] == '.' && seq!['.', '.'][0] == '.');
    assert(seq!['.'].len() == 1 && seq!['.', '.'].len() == 2);
    assert(c.contains(c[0]));
    lemma_part(k, slash(), s, dot(), t);
    lemma_part(k, dot(), s, dot_dot(), t);
    lemma_part(k, dot_dot(), s, c, t);
    lemma_part(k, slash(), s, c, t);
    lemma_part(k, dot(), s, c, t);
}

proof fn lemma_part(k: Key, c: Seq<char>, s: Key, d: Seq<char>, t: Key)
    requires
        c != d,
    ensures
        key_lt(k + seq![c] + s, k + seq![d] + t) == component_lt(c, d),
    decreases k.len(),
{
    let a = k + seq![c] + s;
    let b = k + seq![d] + t;
    if k.len() > 0 {
        lemma_part(k.drop_first(), c, s, d, t);
        assert(a.drop_first() =~= k.drop_first() + seq![c] + s);
        assert(b.drop_first() =~= k.drop_first() + seq![d] + t);
    } else {
        assert(a[0] == c && b[0] == d);
    }
}

/// The root and the empty path have no parent, and every other path has one.
pub proof fn law_which_paths_have_a_parent(k: Key, c: Seq<char>)
    ensures
        !has_parent(Seq::empty()),
        !has_parent(seq![seq!['/']]),
        c != seq!['/'] ==> has_parent(k.push(c)),
{
    assert(slash() =~= seq!['/']);
    assert(seq![seq!['/']].last() == slash());
    assert(k.push(c).last() == c);
}

/// The last component of a path is its name, unless it leads somewhere else.
pub proof fn law_which_paths_have_a_name(dir: Seq<char>, c: Seq<char>)
    requires
        dir.len() > 0 && dir[0] == '/',
        c.len() > 0 && !c.contains('/') && c != seq!['.'],
    ensures
        is_entry_name(c) ==> last_name(dir + seq!['/'] + c) == Some(c),
        c == seq!['.', '.'] ==> last_name(dir + seq!['/'] + c) is None,
        last_name(seq!['/']) is None,
        last_name(Seq::empty()) is None,
{
    law_components_are_the_names(dir, c);
    assert(dir.push('/') + c =~= dir + seq!['/'] + c);
    assert(components(dir + seq!['/'] + c).last() == c);
    assert(dot() =~= seq!['.'] && dot_dot() =~= seq!['.', '.'] && slash() =~= seq!['/']);
    assert(c != slash()) by {
        assert(slash()[0] == '/');
        assert(c.contains(c[0]));
    }
    assert(components(seq!['/']).last() == slash());
}

} // verus!
