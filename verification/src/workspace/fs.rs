//! A workspace in a directory of the file system, and how paths are split into
//! components (Unix paths: components are separated by `/`).
use vstd::prelude::*;
use crate::deck::document::strings_view;
use crate::text::{chars_of, push_char, string_of};

verus! {

// ------------------------------------------------------------------------
// Paths
// ------------------------------------------------------------------------

/// The pieces between the separators of a path, empty ones included.
pub open spec fn split_path(p: Seq<char>) -> Seq<Seq<char>>
    decreases p.len(),
{
    if p.len() == 0 {
        seq![seq![]]
    } else {
        let s = split_path(p.drop_last());
        if p.last() == '/' {
            s.push(seq![])
        } else {
            s.update(s.len() - 1, s.last().push(p.last()))
        }
    }
}

pub proof fn lemma_split_path_len(p: Seq<char>)
    ensures
        split_path(p).len() >= 1,
    decreases p.len(),
{
    if p.len() > 0 {
        lemma_split_path_len(p.drop_last());
    }
}

/// A piece that names a file or directory: not empty, `.` or `..`.
pub open spec fn is_normal(piece: Seq<char>) -> bool {
    piece.len() > 0 && piece != seq!['.'] && piece != seq!['.', '.']
}

pub open spec fn normal_pieces(ps: Seq<Seq<char>>) -> Seq<Seq<char>>
    decreases ps.len(),
{
    if ps.len() == 0 {
        seq![]
    } else {
        normal_pieces(ps.drop_last()) + if is_normal(ps.last()) {
            seq![ps.last()]
        } else {
            seq![]
        }
    }
}

/// The names along a path; the root, `.` and `..` are left out.
pub open spec fn components_of(p: Seq<char>) -> Seq<Seq<char>> {
    normal_pieces(split_path(p))
}

/// Walks the path and calls out each piece; used by `components` and `stem`.
proof fn lemma_split_step(p: Seq<char>, i: int)
    requires
        0 <= i < p.len(),
    ensures
        p.take(i + 1).drop_last() == p.take(i),
        p.take(i + 1).last() == p[i],
        split_path(p.take(i + 1)) == if p[i] == '/' {
            split_path(p.take(i)).push(seq![])
        } else {
            split_path(p.take(i)).update(
                split_path(p.take(i)).len() - 1,
                split_path(p.take(i)).last().push(p[i]),
            )
        },
{
    assert(p.take(i + 1).drop_last() =~= p.take(i));
}

proof fn lemma_split_piece(piece: Seq<char>)
    requires
        !piece.contains('/'),
    ensures
        split_path(piece) == seq![piece],
    decreases piece.len(),
{
    if piece.len() > 0 {
        assert(!piece.drop_last().contains('/')) by {
            if piece.drop_last().contains('/') {
                let i = choose|i: int| 0 <= i < piece.drop_last().len() && piece.drop_last()[i] == '/';
                assert(piece[i] == '/');
            }
        }
        lemma_split_piece(piece.drop_last());
        assert(piece.last() != '/') by {
            assert(piece[piece.len() - 1] == piece.last());
        }
        assert(piece.drop_last().push(piece.last()) =~= piece);
    } else {
        assert(piece =~= Seq::<char>::empty());
    }
}

proof fn lemma_split_concat(a: Seq<char>, b: Seq<char>)
    ensures
        split_path(a + seq!['/'] + b) == split_path(a) + split_path(b),
    decreases b.len(),
{
    let ab = a + seq!['/'] + b;
    if b.len() == 0 {
        assert(ab.drop_last() =~= a);
        assert(ab.last() == '/');
        assert(split_path(b) == seq![Seq::<char>::empty()]);
        assert(split_path(a).push(seq![]) =~= split_path(a) + seq![Seq::<char>::empty()]);
    } else {
        let b2 = b.drop_last();
        lemma_split_concat(a, b2);
        lemma_split_path_len(b2);
        assert(ab.drop_last() =~= a + seq!['/'] + b2);
        assert(ab.last() == b.last());
        let x = split_path(a);
        let y = split_path(b2);
        if b.last() == '/' {
            assert((x + y).push(seq![]) =~= x + y.push(seq![]));
        } else {
            assert((x + y).last() == y.last());
            assert((x + y).update((x + y).len() - 1, y.last().push(b.last())) =~= x + y.update(
                y.len() - 1,
                y.last().push(b.last()),
            ));
        }
    }
}

proof fn lemma_normal_pieces_concat(x: Seq<Seq<char>>, y: Seq<Seq<char>>)
    ensures
        normal_pieces(x + y) == normal_pieces(x) + normal_pieces(y),
    decreases y.len(),
{
    if y.len() == 0 {
        assert(x + y =~= x);
        assert(normal_pieces(x) + normal_pieces(y) =~= normal_pieces(x));
    } else {
        lemma_normal_pieces_concat(x, y.drop_last());
        assert((x + y).drop_last() =~= x + y.drop_last());
        assert((x + y).last() == y.last());
        let tail = if is_normal(y.last()) {
            seq![y.last()]
        } else {
            Seq::<Seq<char>>::empty()
        };
        assert(normal_pieces(x) + normal_pieces(y.drop_last()) + tail =~= normal_pieces(x) + (
        normal_pieces(y.drop_last()) + tail));
    }
}

/// The components of a path: a single name without separator is its own
/// component unless it is empty, `.` or `..` (a name that only starts with a
/// dot, such as `.rem`, is kept); and the components of two paths joined by a
/// separator are those of the first followed by those of the second.
pub proof fn lemma_components_of(a: Seq<char>, b: Seq<char>, piece: Seq<char>)
    requires
        !piece.contains('/'),
    ensures
        components_of(piece) == if piece.len() == 0 || piece == seq!['.'] || piece == seq!['.', '.'] {
            Seq::<Seq<char>>::empty()
        } else {
            seq![piece]
        },
        components_of(a + seq!['/'] + b) == components_of(a) + components_of(b),
{
    lemma_split_piece(piece);
    let one = seq![piece];
    assert(one.drop_last() =~= Seq::<Seq<char>>::empty());
    assert(one.last() == piece);
    assert(normal_pieces(one.drop_last()) =~= Seq::<Seq<char>>::empty());
    if is_normal(piece) {
        assert(Seq::<Seq<char>>::empty() + seq![piece] =~= seq![piece]);
    } else {
        assert(Seq::<Seq<char>>::empty() + Seq::<Seq<char>>::empty() =~= Seq::<Seq<char>>::empty());
    }
    lemma_split_concat(a, b);
    lemma_normal_pieces_concat(split_path(a), split_path(b));
}

/// The names along `path`, in order.
pub fn path_components(path: &str) -> (c: Vec<String>)
    ensures
        strings_view(c@) == components_of(path@),
{
    let chars = chars_of(path);
    let mut c: Vec<String> = Vec::new();
    let mut start: usize = 0;
    let mut i: usize = 0;
    proof {
        assert(chars@.take(0) =~= Seq::<char>::empty());
    }
    while i < chars.len()
        invariant
            0 <= start <= i <= chars@.len(),
            split_path(chars@.take(i as int)).len() >= 1,
            split_path(chars@.take(i as int)).last() == chars@.subrange(start as int, i as int),
            strings_view(c@) == normal_pieces(split_path(chars@.take(i as int)).drop_last()),
        decreases chars@.len() - i,
    {
        let ghost s = split_path(chars@.take(i as int));
        proof {
            lemma_split_step(chars@, i as int);
        }
        if chars[i] == '/' {
            let ghost piece = chars@.subrange(start as int, i as int);
            let ghost before = strings_view(c@);
            if is_normal_at(&chars, start, i) {
                let name = string_of(&chars, start, i);
                c.push(name);
                proof {
                    assert(strings_view(c@) =~= before.push(piece));
                }
            }
            proof {
                assert(split_path(chars@.take(i + 1)).drop_last() =~= s);
                assert(s =~= s.drop_last().push(piece));
                assert(normal_pieces(s) == normal_pieces(s.drop_last()) + if is_normal(piece) { seq![piece] } else { seq![] });
                assert(strings_view(c@) =~= normal_pieces(s));
                assert(chars@.subrange(i + 1, i + 1) =~= Seq::<char>::empty());
            }
            start = i + 1;
        } else {
            proof {
                assert(split_path(chars@.take(i + 1)).drop_last() =~= s.drop_last());
                assert(chars@.subrange(start as int, i + 1) =~= chars@.subrange(start as int, i as int).push(chars@[i as int]));
            }
        }
        i = i + 1;
    }
    let ghost s = split_path(chars@.take(i as int));
    let ghost piece = chars@.subrange(start as int, i as int);
    let ghost before = strings_view(c@);
    if is_normal_at(&chars, start, i) {
        let name = string_of(&chars, start, i);
        c.push(name);
        proof {
            assert(strings_view(c@) =~= before.push(piece));
        }
    }
    proof {
        assert(chars@.take(i as int) =~= path@);
        assert(s =~= s.drop_last().push(piece));
        assert(normal_pieces(s) == normal_pieces(s.drop_last()) + if is_normal(piece) { seq![piece] } else { seq![] });
        assert(strings_view(c@) =~= normal_pieces(s));
    }
    c
}

/// Whether `chars[start..end]` is a name.
fn is_normal_at(chars: &Vec<char>, start: usize, end: usize) -> (r: bool)
    requires
        start <= end <= chars@.len(),
    ensures
        r == is_normal(chars@.subrange(start as int, end as int)),
{
    let piece = Ghost(chars@.subrange(start as int, end as int));
    if end == start {
        false
    } else if end - start == 1 && chars[start] == '.' {
        proof {
            assert(piece@ =~= seq!['.']);
        }
        false
    } else if end - start == 2 && chars[start] == '.' && chars[start + 1] == '.' {
        proof {
            assert(piece@ =~= seq!['.', '.']);
        }
        false
    } else {
        proof {
            let one: Seq<char> = seq!['.'];
            let two: Seq<char> = seq!['.', '.'];
            assert(one.len() == 1 && one[0] == '.');
            assert(two.len() == 2 && two[0] == '.' && two[1] == '.');
            if end - start == 1 {
                assert(piece@[0] != '.');
            }
            if end - start == 2 {
                assert(piece@[0] != '.' || piece@[1] != '.');
            }
        }
        true
    }
}

// ------------------------------------------------------------------------
// Relative paths
// ------------------------------------------------------------------------

pub open spec fn is_absolute(p: Seq<char>) -> bool {
    p.len() > 0 && p[0] == '/'
}

/// The path that leads from `base` to `path`, as `pathdiff::diff_paths` makes it.
pub uninterp spec fn spec_diff_paths(path: Seq<char>, base: Seq<char>) -> Option<Seq<char>>;

pub open spec fn option_view(o: Option<String>) -> Option<Seq<char>> {
    match o {
        Some(s) => Some(s@),
        None => None,
    }
}

/// Names that a path can be extended by one at a time: each names a file or
/// directory (see `is_normal`) and holds no separator.
pub open spec fn plain_names(names: Seq<Seq<char>>) -> bool {
    forall|i: int| 0 <= i < names.len() ==> is_normal(#[trigger] names[i]) && !names[i].contains('/')
}

/// Where `path` is the absolute `base` extended by plain names, `rel` is a path
/// made of those names.
pub open spec fn leads_by_names(rel: Option<Seq<char>>, path: Seq<char>, base: Seq<char>) -> bool {
    forall|names: Seq<Seq<char>>|
        #[trigger] join_path(base, names) == path && is_absolute(base) && plain_names(names)
            ==> (rel matches Some(r) && components_of(r) == names)
}

/// `pathdiff::diff_paths`: the path that leads from `base` to `path`.  Its result
/// is named by `spec_diff_paths`; what its source shows directly is stated too:
/// an absolute path seen from a relative base is itself, a relative path has no
/// way from an absolute base, and a path that is an absolute base extended by
/// plain names (see `join_path`) is reached from the base by those names: the
/// components of the two paths agree on the base's and the rest, the names, make
/// up the result.
#[verifier::external_body]
fn diff_paths(path: &str, base: &str) -> (r: Option<String>)
    ensures
        option_view(r) == spec_diff_paths(path@, base@),
        is_absolute(path@) && !is_absolute(base@) ==> option_view(r) == Some(path@),
        !is_absolute(path@) && is_absolute(base@) ==> option_view(r) == None::<Seq<char>>,
        leads_by_names(option_view(r), path@, base@),
{
    match pathdiff::diff_paths(path, base) {
        Some(p) => Some(p.to_string_lossy().into_owned()),
        None => None,
    }
}

/// `acc` with `piece` added at its end as a path is extended: a piece that
/// starts at the root replaces the path; otherwise a separator is put between
/// them unless the path is empty or already ends with one.
pub open spec fn push_path(acc: Seq<char>, piece: Seq<char>) -> Seq<char> {
    if piece.len() > 0 && piece[0] == '/' {
        piece
    } else if acc.len() == 0 || acc.last() == '/' {
        acc + piece
    } else {
        acc + seq!['/'] + piece
    }
}

/// The path of `root` extended by each of `pieces` in turn.
pub open spec fn join_path(root: Seq<char>, pieces: Seq<Seq<char>>) -> Seq<char>
    decreases pieces.len(),
{
    if pieces.len() == 0 {
        root
    } else {
        push_path(join_path(root, pieces.drop_last()), pieces.last())
    }
}

/// Appends the characters of `piece` to `s`.
fn append(s: &mut String, piece: &str)
    ensures
        final(s)@ == old(s)@ + piece@,
{
    let chars = chars_of(piece);
    let mut i: usize = 0;
    while i < chars.len()
        invariant
            0 <= i <= chars@.len(),
            chars@ == piece@,
            s@ == old(s)@ + chars@.take(i as int),
        decreases chars@.len() - i,
    {
        push_char(s, chars[i]);
        proof {
            assert(chars@.take(i + 1) =~= chars@.take(i as int).push(chars@[i as int]));
            assert(s@ =~= old(s)@ + chars@.take(i + 1));
        }
        i = i + 1;
    }
    proof {
        assert(chars@.take(i as int) =~= chars@);
    }
}

/// `acc` extended by `piece` (see `push_path`).
fn push_piece(acc: String, piece: &str) -> (r: String)
    ensures
        r@ == push_path(acc@, piece@),
{
    let chars = chars_of(piece);
    if chars.len() > 0 && chars[0] == '/' {
        return String::from_str(piece);
    }
    let mut acc = acc;
    let acc_chars = chars_of(acc.as_str());
    if acc_chars.len() > 0 && acc_chars[acc_chars.len() - 1] != '/' {
        push_char(&mut acc, '/');
    }
    append(&mut acc, piece);
    acc
}

// ------------------------------------------------------------------------
// The workspace
// ------------------------------------------------------------------------

/// A workspace kept in the directory `root`.
#[derive(Debug)]
pub struct LocalWorkspace {
    root: String,
}

impl LocalWorkspace {
    pub closed spec fn spec_root(&self) -> Seq<char> {
        self.root@
    }

    pub fn new(root: String) -> (w: Self)
        ensures
            w.spec_root() == root@,
    {
        LocalWorkspace { root }
    }

    pub fn root(&self) -> (r: &String)
        ensures
            r@ == self.spec_root(),
    {
        &self.root
    }

    /// The path of `location` in the file system: the workspace's directory
    /// extended by each component.
    pub fn absolute(&self, location: &Vec<String>) -> (p: String)
        ensures
            p@ == join_path(self.spec_root(), strings_view(location@)),
    {
        let mut path = self.root.clone();
        let mut i: usize = 0;
        while i < location.len()
            invariant
                0 <= i <= location@.len(),
                path@ == join_path(self.spec_root(), strings_view(location@).take(i as int)),
            decreases location@.len() - i,
        {
            path = push_piece(path, location[i].as_str());
            proof {
                let v = strings_view(location@);
                assert(v.take(i + 1).drop_last() =~= v.take(i as int));
                assert(v.take(i + 1).last() == location@[i as int]@);
            }
            i = i + 1;
        }
        proof {
            assert(strings_view(location@).take(i as int) =~= strings_view(location@));
        }
        path
    }

    /// The location of `path`, a path relative to the workspace's directory.
    pub fn components(&self, path: &str) -> (c: Vec<String>)
        ensures
            strings_view(c@) == components_of(path@),
    {
        path_components(path)
    }

    /// The location of `path`, seen from the workspace's directory.
    pub fn relative(&self, path: &str) -> (c: Vec<String>)
        requires
            spec_diff_paths(path@, self.spec_root()) is Some,
        ensures
            strings_view(c@) == components_of(spec_diff_paths(path@, self.spec_root()).unwrap()),
    {
        let rel = diff_paths(path, &self.root).unwrap();
        self.components(&rel)
    }

    /// The location of `path` seen from the workspace's directory, if there is
    /// a way from one to the other.  From an absolute directory, the path of a
    /// location (see `absolute`) made of plain names leads back to that location.
    pub fn try_relative(&self, path: &str) -> (c: Option<Vec<String>>)
        ensures
            match c {
                Some(c) => spec_diff_paths(path@, self.spec_root()) matches Some(rel) && strings_view(c@)
                    == components_of(rel),
                None => spec_diff_paths(path@, self.spec_root()) is None,
            },
            forall|names: Seq<Seq<char>>|
                #[trigger] join_path(self.spec_root(), names) == path@ && is_absolute(self.spec_root())
                    && plain_names(names) ==> (c matches Some(v) && strings_view(v@) == names),
    {
        match diff_paths(path, &self.root) {
            Some(rel) => Some(self.relative(path)),
            None => None,
        }
    }
}

} // verus!
