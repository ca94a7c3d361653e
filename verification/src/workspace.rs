//! Locations in a workspace: paths made of components.
pub mod fs;

use vstd::prelude::*;
use crate::deck::document::strings_view;
use vstd::string::StringExecFns;

verus! {

/// A component of a location.
pub trait Component: Sized {
}

impl Component for String {
}

/// Whether a location is opened to be read or written.
#[derive(Debug, Clone, Copy, PartialEq, Eq)]
pub enum Access {
    Read,
    Write,
}

/// The components of a location, in order.
pub open spec fn concat(parts: Seq<Seq<Seq<char>>>) -> Seq<Seq<char>>
    decreases parts.len(),
{
    if parts.len() == 0 {
        seq![]
    } else {
        concat(parts.drop_last()) + parts.last()
    }
}

/// A location put together from two runs of parts has the components of the
/// first run followed by those of the second.
pub proof fn lemma_concat_split(a: Seq<Seq<Seq<char>>>, b: Seq<Seq<Seq<char>>>)
    ensures
        concat(a + b) == concat(a) + concat(b),
    decreases b.len(),
{
    if b.len() == 0 {
        assert(a + b =~= a);
        assert(concat(a) + concat(b) =~= concat(a));
    } else {
        lemma_concat_split(a, b.drop_last());
        assert((a + b).drop_last() =~= a + b.drop_last());
        assert((a + b).last() == b.last());
        assert(concat(a) + (concat(b.drop_last()) + b.last()) =~= (concat(a) + concat(b.drop_last())) + b.last());
    }
}

/// A location under a root (what `loc_root` makes) is the location whose first
/// part is the root (what `loc` makes of the root and the same parts).
pub proof fn lemma_loc_under_root(root: Seq<Seq<char>>, parts: Seq<Seq<Seq<char>>>)
    ensures
        concat(seq![root] + parts) == root + concat(parts),
{
    let one = seq![root];
    lemma_concat_split(one, parts);
    assert(one.drop_last() =~= Seq::<Seq<Seq<char>>>::empty());
    assert(one.last() == root);
    assert(concat(one.drop_last()) == Seq::<Seq<char>>::empty());
    assert(concat(one) == concat(one.drop_last()) + one.last());
    assert(Seq::<Seq<char>>::empty() + root =~= root);
}

/// Anything that stands for a location: a single component, or several.
pub trait IntoComponents: Sized {
    spec fn spec_components(&self) -> Seq<Seq<char>>;

    fn into_components(self) -> (c: Vec<String>)
        ensures
            strings_view(c@) == self.spec_components(),
    ;
}

impl<'a> IntoComponents for &'a str {
    open spec fn spec_components(&self) -> Seq<Seq<char>> {
        seq![self@]
    }

    fn into_components(self) -> (c: Vec<String>) {
        let s = String::from_str(self);
        let mut c: Vec<String> = Vec::new();
        c.push(s);
        proof {
            assert(c@ =~= seq![s]);
            assert(strings_view(c@)[0] == s@);
            assert(strings_view(c@) =~= seq![self@]);
            assert(self.spec_components() == seq![self@]);
        }
        c
    }
}

impl IntoComponents for String {
    open spec fn spec_components(&self) -> Seq<Seq<char>> {
        seq![self@]
    }

    fn into_components(self) -> (c: Vec<String>) {
        let ghost v = self@;
        let mut c: Vec<String> = Vec::new();
        c.push(self);
        proof {
            assert(strings_view(c@) =~= seq![v]);
        }
        c
    }
}

impl IntoComponents for Vec<String> {
    open spec fn spec_components(&self) -> Seq<Seq<char>> {
        strings_view(self@)
    }

    fn into_components(self) -> (c: Vec<String>) {
        self
    }
}

impl IntoComponents for () {
    open spec fn spec_components(&self) -> Seq<Seq<char>> {
        seq![]
    }

    fn into_components(self) -> (c: Vec<String>) {
        let c: Vec<String> = Vec::new();
        proof {
            assert(strings_view(c@) =~= Seq::<Seq<char>>::empty());
        }
        c
    }
}

/// Anything that holds the components of a location.
pub trait AsComponents {
    spec fn spec_as_components(&self) -> Seq<Seq<char>>;

    fn as_components(&self) -> (c: &[String])
        ensures
            strings_view(c@) == self.spec_as_components(),
    ;
}

impl AsComponents for Vec<String> {
    open spec fn spec_as_components(&self) -> Seq<Seq<char>> {
        strings_view(self@)
    }

    fn as_components(&self) -> (c: &[String]) {
        self.as_slice()
    }
}

/// The location under which a kind of data is kept.
pub trait Root {
    spec fn spec_root() -> Seq<Seq<char>>;

    fn get_root() -> (r: Vec<String>)
        ensures
            strings_view(r@) == Self::spec_root(),
    ;
}

/// The workspace itself.
pub struct WorkspaceRoot;

impl Root for WorkspaceRoot {
    open spec fn spec_root() -> Seq<Seq<char>> {
        seq![]
    }

    fn get_root() -> (r: Vec<String>) {
        ().into_components()
    }
}

/// Where the program keeps its own data: `.rem` in the workspace.
pub struct RemedyRoot;

impl Root for RemedyRoot {
    open spec fn spec_root() -> Seq<Seq<char>> {
        seq![".rem"@]
    }

    fn get_root() -> (r: Vec<String>) {
        let r = ".rem".into_components();
        proof {
            reveal_strlit(".rem");
        }
        r
    }
}

proof fn lemma_strings_view_push(v: Seq<String>, x: String)
    ensures
        strings_view(v.push(x)) == strings_view(v).push(x@),
{
    assert(strings_view(v.push(x)) =~= strings_view(v).push(x@));
}

/// The components of several parts of a location, one after the other.
pub fn loc(parts: Vec<Vec<String>>) -> (c: Vec<String>)
    ensures
        strings_view(c@) == concat(parts@.map_values(|p: Vec<String>| strings_view(p@))),
{
    let ghost views = parts@.map_values(|p: Vec<String>| strings_view(p@));
    let mut c: Vec<String> = Vec::new();
    let mut parts = parts;
    let mut rest: Vec<Vec<String>> = Vec::new();
    // take the parts from the back, then put them together from the front
    while parts.len() > 0
        invariant
            views == parts@.map_values(|p: Vec<String>| strings_view(p@)) + rest@.reverse().map_values(|p: Vec<String>| strings_view(p@)),
        decreases parts@.len(),
    {
        let ghost before_parts = parts@;
        let ghost before_rest = rest@;
        let p = parts.pop().unwrap();
        rest.push(p);
        proof {
            assert(parts@ == before_parts.drop_last());
            assert(rest@.reverse() =~= seq![p] + before_rest.reverse());
            assert(before_parts =~= parts@.push(p));
            assert(views =~= parts@.map_values(|p: Vec<String>| strings_view(p@)) + rest@.reverse().map_values(|p: Vec<String>| strings_view(p@)));
        }
    }
    proof {
        assert(views =~= rest@.reverse().map_values(|p: Vec<String>| strings_view(p@)));
    }
    let ghost done: Seq<Seq<Seq<char>>> = seq![];
    while rest.len() > 0
        invariant
            views == done + rest@.reverse().map_values(|p: Vec<String>| strings_view(p@)),
            strings_view(c@) == concat(done),
        decreases rest@.len(),
    {
        let ghost before_rest = rest@;
        let p = rest.pop().unwrap();
        let ghost pv = strings_view(p@);
        let mut k: usize = 0;
        let ghost start = strings_view(c@);
        while k < p.len()
            invariant
                0 <= k <= p@.len(),
                strings_view(c@) == start + pv.take(k as int),
                pv == strings_view(p@),
            decreases p@.len() - k,
        {
            let ghost before = c@;
            let x = p[k].clone();
            c.push(x);
            proof {
                lemma_strings_view_push(before, x);
                assert(pv[k as int] == x@);
                assert(pv.take(k + 1) =~= pv.take(k as int).push(x@));
                assert(strings_view(c@) =~= start + pv.take(k + 1));
            }
            k = k + 1;
        }
        proof {
            assert(pv.take(k as int) =~= pv);
            assert(before_rest.reverse() =~= seq![p] + rest@.reverse());
            assert((done.push(pv)).drop_last() =~= done);
            done = done.push(pv);
            assert(views =~= done + rest@.reverse().map_values(|p: Vec<String>| strings_view(p@)));
        }
    }
    proof {
        assert(views =~= done);
    }
    c
}

/// The components of a location under the root `R`.
pub fn loc_root<R: Root>(parts: Vec<Vec<String>>) -> (c: Vec<String>)
    ensures
        strings_view(c@) == R::spec_root() + concat(parts@.map_values(|p: Vec<String>| strings_view(p@))),
{
    let root = R::get_root();
    let mut c = root;
    let rest = loc(parts);
    let ghost start = strings_view(c@);
    let mut k: usize = 0;
    while k < rest.len()
        invariant
            0 <= k <= rest@.len(),
            strings_view(c@) == start + strings_view(rest@).take(k as int),
        decreases rest@.len() - k,
    {
        let ghost before = c@;
        let x = rest[k].clone();
        c.push(x);
        proof {
            lemma_strings_view_push(before, x);
            assert(strings_view(c@) =~= start + strings_view(rest@).take(k + 1));
        }
        k = k + 1;
    }
    proof {
        assert(strings_view(rest@).take(k as int) =~= strings_view(rest@));
    }
    c
}

/// The location that holds `components`: all of them but the last.
pub fn parent(components: &Vec<String>) -> (p: Vec<String>)
    requires
        components@.len() > 0,
    ensures
        strings_view(p@) == strings_view(components@).drop_last(),
{
    let mut p: Vec<String> = Vec::new();
    let mut k: usize = 0;
    while k < components.len() - 1
        invariant
            0 <= k < components@.len(),
            strings_view(p@) == strings_view(components@).take(k as int),
        decreases components@.len() - k,
    {
        let ghost before = p@;
        let x = components[k].clone();
        p.push(x);
        proof {
            lemma_strings_view_push(before, x);
            assert(strings_view(p@) =~= strings_view(components@).take(k + 1));
        }
        k = k + 1;
    }
    proof {
        assert(strings_view(components@).take(k as int) =~= strings_view(components@).drop_last());
    }
    p
}

/// A location relative to one `skip` components up: its components after the first `skip`.
pub fn relative_to(components: &Vec<String>, skip: usize) -> (r: Vec<String>)
    requires
        skip <= components@.len(),
    ensures
        strings_view(r@) == strings_view(components@).skip(skip as int),
{
    let mut r: Vec<String> = Vec::new();
    let mut k: usize = skip;
    while k < components.len()
        invariant
            skip <= k <= components@.len(),
            strings_view(r@) == strings_view(components@).subrange(skip as int, k as int),
        decreases components@.len() - k,
    {
        let ghost before = r@;
        let x = components[k].clone();
        r.push(x);
        proof {
            lemma_strings_view_push(before, x);
            assert(strings_view(r@) =~= strings_view(components@).subrange(skip as int, k + 1));
        }
        k = k + 1;
    }
    r
}

} // verus!
