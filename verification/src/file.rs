//! Names of files.
use vstd::prelude::*;
use crate::text::chars_of;
use crate::workspace::fs::{lemma_split_path_len, split_path};

verus! {

/// A piece that names something: not empty and not `.`; (`..` is kept here, since
/// a path that ends in it has no file name).
pub open spec fn is_named(piece: Seq<char>) -> bool {
    piece.len() > 0 && piece != seq!['.']
}

pub open spec fn named_pieces(ps: Seq<Seq<char>>) -> Seq<Seq<char>>
    decreases ps.len(),
{
    if ps.len() == 0 {
        seq![]
    } else {
        named_pieces(ps.drop_last()) + if is_named(ps.last()) {
            seq![ps.last()]
        } else {
            seq![]
        }
    }
}

/// The last component of a path, if it names a file or directory.
pub open spec fn file_name(p: Seq<char>) -> Option<Seq<char>> {
    let ns = named_pieces(split_path(p));
    if ns.len() == 0 || ns.last() == seq!['.', '.'] {
        None
    } else {
        Some(ns.last())
    }
}

/// The index of the last `.` in `name`, or `-1`.
pub open spec fn last_dot(name: Seq<char>) -> int
    decreases name.len(),
{
    if name.len() == 0 {
        -1
    } else if name.last() == '.' {
        name.len() - 1
    } else {
        last_dot(name.drop_last())
    }
}

/// The file name without its extension: up to the last `.`, unless that dot
/// starts the name.
pub open spec fn file_stem(p: Seq<char>) -> Option<Seq<char>> {
    match file_name(p) {
        Some(name) => Some(
            if last_dot(name) <= 0 {
                name
            } else {
                name.take(last_dot(name))
            },
        ),
        None => None,
    }
}

proof fn lemma_last_dot(name: Seq<char>)
    ensures
        -1 <= last_dot(name) < name.len(),
        last_dot(name) >= 0 ==> name[last_dot(name)] == '.',
        forall|i: int| last_dot(name) < i < name.len() ==> name[i] != '.',
    decreases name.len(),
{
    if name.len() > 0 && name.last() != '.' {
        lemma_last_dot(name.drop_last());
        assert forall|i: int| last_dot(name) < i < name.len() implies name[i] != '.' by {
            if i < name.len() - 1 {
                assert(name[i] == name.drop_last()[i]);
            }
        }
    }
}

/// Whether `chars[start..end]` names something.
fn is_named_at(chars: &Vec<char>, start: usize, end: usize) -> (r: bool)
    requires
        start <= end <= chars@.len(),
    ensures
        r == is_named(chars@.subrange(start as int, end as int)),
{
    let ghost piece = chars@.subrange(start as int, end as int);
    let ghost one: Seq<char> = seq!['.'];
    proof {
        assert(one.len() == 1 && one[0] == '.');
    }
    if end == start {
        false
    } else if end - start == 1 && chars[start] == '.' {
        proof {
            assert(piece =~= one);
        }
        false
    } else {
        proof {
            if end - start == 1 {
                assert(piece[0] != '.');
            }
        }
        true
    }
}

/// The stem of the file that `path` names.
pub fn stem(path: &str) -> (s: &str)
    requires
        file_name(path@) is Some,
    ensures
        s@ == file_stem(path@).unwrap(),
{
    let chars = chars_of(path);
    // the last named piece seen so far is chars[a..b], if `found`
    let mut found = false;
    let mut a: usize = 0;
    let mut b: usize = 0;
    let mut start: usize = 0;
    let mut i: usize = 0;
    proof {
        assert(chars@.take(0) =~= Seq::<char>::empty());
    }
    while i < chars.len()
        invariant
            0 <= start <= i <= chars@.len(),
            split_path(chars@.take(i as int)).len() >= 1,
            split_path(chars@.take(i as int)).last() == chars@.subrange(start as int, i as int),
            found == (named_pieces(split_path(chars@.take(i as int)).drop_last()).len() > 0),
            found ==> a <= b <= chars@.len() && named_pieces(split_path(chars@.take(i as int)).drop_last()).last() == chars@.subrange(a as int, b as int),
        decreases chars@.len() - i,
    {
        let ghost s = split_path(chars@.take(i as int));
        proof {
            assert(chars@.take(i + 1).drop_last() =~= chars@.take(i as int));
        }
        if chars[i] == '/' {
            let ghost piece = chars@.subrange(start as int, i as int);
            let named = is_named_at(&chars, start, i);
            proof {
                assert(s =~= s.drop_last().push(piece));
                assert(named_pieces(s) == named_pieces(s.drop_last()) + if is_named(piece) { seq![piece] } else { seq![] });
            }
            if named {
                found = true;
                a = start;
                b = i;
            }
            proof {
                lemma_split_path_len(chars@.take(i + 1));
                assert(split_path(chars@.take(i + 1)) == s.push(seq![]));
                assert(split_path(chars@.take(i + 1)).drop_last() =~= s);
                assert(chars@.subrange(i + 1, i + 1) =~= Seq::<char>::empty());
            }
            start = i + 1;
        } else {
            proof {
                assert(split_path(chars@.take(i + 1)).drop_last() =~= s.drop_last());
                assert(chars@.subrange(start as int, i + 1) =~= chars@.subrange(start as int, i as int).push(chars@[i as int]));
            }
        }
        i = i + 1;
    }
    let ghost s = split_path(chars@.take(i as int));
    let ghost piece = chars@.subrange(start as int, i as int);
    let named = is_named_at(&chars, start, i);
    proof {
        assert(s =~= s.drop_last().push(piece));
        assert(named_pieces(s) == named_pieces(s.drop_last()) + if is_named(piece) { seq![piece] } else { seq![] });
        assert(chars@.take(i as int) =~= chars@);
    }
    if named {
        found = true;
        a = start;
        b = i;
    }
    proof {
        assert(chars@ == path@);
    }
    // the file name is chars[a..b]; cut it at its last dot, unless that starts it
    let mut d: usize = b;
    while d > a && chars[d - 1] != '.'
        invariant
            a <= d <= b <= chars@.len(),
            forall|j: int| d <= j < b ==> chars@[j] != '.',
        decreases d,
    {
        d = d - 1;
    }
    let ghost name = chars@.subrange(a as int, b as int);
    proof {
        lemma_last_dot(name);
        if d > a {
            assert(name[d - 1 - a] == '.');
            assert(last_dot(name) == d - 1 - a) by {
                if last_dot(name) > d - 1 - a {
                    assert(name[last_dot(name)] == chars@[a + last_dot(name)]);
                }
            }
        } else {
            assert(last_dot(name) == -1) by {
                if last_dot(name) >= 0 {
                    assert(name[last_dot(name)] == chars@[a + last_dot(name)]);
                }
            }
        }
    }
    let end = if d - a > 1 { d - 1 } else { b };
    proof {
        assert(found);
        if d - a > 1 {
            assert(name.take(last_dot(name)) =~= chars@.subrange(a as int, end as int));
        }
    }
    path.substring_char(a, end)
}

} // verus!
