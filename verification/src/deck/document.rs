//! Documents whose closures are resolved to the rems they belong to.
use vstd::prelude::*;
use crate::document::grammar::{SpecContent, SpecRem, is_path, lemma_path_ids_step, path_ids, rem_at, lemma_parse_document, lemma_render_rems_contains, parse_document, render_rem, render_rems};
use crate::document::parser::{self, ParseError, contents_view, rems_view, resolvable_rem, resolvable_rems};

verus! {

/// The text of a content.
pub type Text = String;

/// A closure's group: the id of the rem it belongs to, and its group name.
pub type Group = (String, String);

#[derive(Debug)]
pub struct Document {
    rems: Vec<Rem>,
}

#[derive(Debug)]
pub struct Rem {
    id: String,
    content: Vec<Content>,
    children: Vec<Rem>,
}

#[derive(Debug, PartialEq, Eq)]
pub enum Content {
    Text(Text),
    Closure(Group, Text),
}

/// A piece of a text: a line or a line break.
#[derive(Debug, PartialEq, Eq)]
pub enum Segment {
    NewLine,
    Line(String),
}

// ------------------------------------------------------------------------
// The model
// ------------------------------------------------------------------------

pub enum ResolvedContent {
    Text(Seq<char>),
    /// The id of the rem the closure belongs to, its group and its text.
    Closure(Seq<char>, Seq<char>, Seq<char>),
}

pub struct ResolvedRem {
    pub id: Seq<char>,
    pub content: Seq<ResolvedContent>,
    pub children: Seq<ResolvedRem>,
}

/// A closure `location` levels up belongs to that ancestor; `parents` lists the
/// ids from the top down to the rem that holds the content.
pub open spec fn resolve_content(c: SpecContent, parents: Seq<Seq<char>>) -> ResolvedContent {
    match c {
        SpecContent::Text(t) => ResolvedContent::Text(t),
        SpecContent::Closure { location, group, text } => ResolvedContent::Closure(
            parents[parents.len() - 1 - location],
            group,
            text,
        ),
    }
}

pub open spec fn resolve_contents(cs: Seq<SpecContent>, parents: Seq<Seq<char>>) -> Seq<
    ResolvedContent,
> {
    Seq::new(cs.len(), |i: int| resolve_content(cs[i], parents))
}

/// The rem `r` resolved below the ancestors `parents`.
pub open spec fn resolve_rem(r: SpecRem, parents: Seq<Seq<char>>) -> ResolvedRem
    decreases r,
{
    ResolvedRem {
        id: r.id,
        content: resolve_contents(r.content, parents.push(r.id)),
        children: Seq::new(
            r.children.len(),
            |i: int|
                if 0 <= i < r.children.len() {
                    resolve_rem(r.children[i], parents.push(r.id))
                } else {
                    ResolvedRem { id: seq![], content: seq![], children: seq![] }
                },
        ),
    }
}

pub open spec fn resolve_rems(rs: Seq<SpecRem>, parents: Seq<Seq<char>>) -> Seq<ResolvedRem> {
    Seq::new(rs.len(), |i: int| resolve_rem(rs[i], parents))
}

/// The resolved rem of `rs` reached by the child indices `p` (see `rem_at`).
pub open spec fn rrem_at(rs: Seq<ResolvedRem>, p: Seq<int>) -> ResolvedRem
    decreases p.len(),
{
    if p.len() <= 1 {
        rs[p[0]]
    } else {
        rrem_at(rs[p[0]].children, p.drop_first())
    }
}

/// `p` leads to a resolved rem of `rs`.
pub open spec fn is_rpath(rs: Seq<ResolvedRem>, p: Seq<int>) -> bool
    decreases p.len(),
{
    &&& p.len() > 0
    &&& 0 <= p[0] < rs.len()
    &&& p.len() > 1 ==> is_rpath(rs[p[0]].children, p.drop_first())
}

proof fn lemma_resolve_at(rs: Seq<SpecRem>, parents: Seq<Seq<char>>, p: Seq<int>)
    requires
        is_path(rs, p),
    ensures
        is_rpath(resolve_rems(rs, parents), p),
        rrem_at(resolve_rems(rs, parents), p) == resolve_rem(rem_at(rs, p), parents + path_ids(rs, p).drop_last()),
    decreases p.len(),
{
    let top = resolve_rems(rs, parents);
    if p.len() == 1 {
        assert(path_ids(rs, p).drop_last() =~= Seq::<Seq<char>>::empty());
        assert(parents + Seq::<Seq<char>>::empty() =~= parents);
    } else {
        let r0 = rs[p[0]];
        let ps = parents.push(r0.id);
        assert(top[p[0]].children =~= resolve_rems(r0.children, ps));
        lemma_resolve_at(r0.children, ps, p.drop_first());
        lemma_path_ids_step(rs, p);
        assert(parents + path_ids(rs, p).drop_last() =~= ps + path_ids(r0.children, p.drop_first()).drop_last());
    }
}

/// Resolving gives each closure to the rem `location` levels above the rem
/// that holds it: with no caret to that rem itself, with one to its parent, and
/// so on up.
pub proof fn lemma_closure_owner(rs: Seq<SpecRem>, p: Seq<int>, j: int)
    requires
        is_path(rs, p),
        0 <= j < rem_at(rs, p).content.len(),
        rem_at(rs, p).content[j] is Closure,
        rem_at(rs, p).content[j]->location < p.len(),
    ensures
        is_rpath(resolve_rems(rs, seq![]), p),
        rrem_at(resolve_rems(rs, seq![]), p).content[j] == ResolvedContent::Closure(
            rem_at(rs, p.take(p.len() - rem_at(rs, p).content[j]->location)).id,
            rem_at(rs, p).content[j]->group,
            rem_at(rs, p).content[j]->text,
        ),
{
    lemma_resolve_at(rs, seq![], p);
    let r = rem_at(rs, p);
    let ids = path_ids(rs, p);
    assert(Seq::<Seq<char>>::empty() + ids.drop_last() =~= ids.drop_last());
    assert(p.take(p.len() as int) =~= p);
    assert(ids.drop_last().push(r.id) =~= ids);
    let l = r.content[j]->location;
    assert(ids[p.len() - 1 - l] == rem_at(rs, p.take(p.len() - l)).id);
}

pub open spec fn strings_view(v: Seq<String>) -> Seq<Seq<char>> {
    Seq::new(v.len(), |i: int| v[i]@)
}

impl View for Content {
    type V = ResolvedContent;

    open spec fn view(&self) -> ResolvedContent {
        match self {
            Content::Text(t) => ResolvedContent::Text(t@),
            Content::Closure(g, t) => ResolvedContent::Closure(g.0@, g.1@, t@),
        }
    }
}

pub open spec fn rcontents_view(cs: Seq<Content>) -> Seq<ResolvedContent> {
    Seq::new(cs.len(), |i: int| cs[i]@)
}

pub closed spec fn rrem_view(r: Rem) -> ResolvedRem
    decreases r,
{
    ResolvedRem {
        id: r.id@,
        content: rcontents_view(r.content@),
        children: Seq::new(
            r.children@.len(),
            |i: int|
                if 0 <= i < r.children@.len() {
                    rrem_view(r.children@[i])
                } else {
                    ResolvedRem { id: seq![], content: seq![], children: seq![] }
                },
        ),
    }
}

pub open spec fn rrems_view(rs: Seq<Rem>) -> Seq<ResolvedRem> {
    Seq::new(rs.len(), |i: int| rrem_view(rs[i]))
}

impl View for Rem {
    type V = ResolvedRem;

    open spec fn view(&self) -> ResolvedRem {
        rrem_view(*self)
    }
}

impl View for Document {
    type V = Seq<ResolvedRem>;

    closed spec fn view(&self) -> Seq<ResolvedRem> {
        rrems_view(self.rems@)
    }
}

proof fn lemma_rrem_view(r: Rem)
    ensures
        rrem_view(r) == (ResolvedRem {
            id: r.id@,
            content: rcontents_view(r.content@),
            children: rrems_view(r.children@),
        }),
{
    assert(rrem_view(r).children =~= rrems_view(r.children@));
}

/// Every rem with children is at a depth that leaves room for one more level.
pub open spec fn fits(r: ResolvedRem, depth: nat) -> bool
    decreases r,
{
    r.children.len() > 0 ==> {
        &&& depth < usize::MAX
        &&& forall|i: int| 0 <= i < r.children.len() ==> fits(#[trigger] r.children[i], depth + 1)
    }
}

/// A rem whose text fits in memory, below that many levels, is nested no deeper
/// than a `usize` can count.
proof fn lemma_resolved_fits(r: SpecRem, parents: Seq<Seq<char>>, depth: nat)
    requires
        depth + render_rem(r).len() <= usize::MAX,
    ensures
        fits(resolve_rem(r, parents), depth),
    decreases r,
{
    let rr = resolve_rem(r, parents);
    assert forall|i: int| 0 <= i < rr.children.len() implies fits(#[trigger] rr.children[i], depth + 1) by {
        lemma_render_rems_contains(r.children, i);
        lemma_resolved_fits(r.children[i], parents.push(r.id), depth + 1);
    }
}

// ------------------------------------------------------------------------
// Reading and resolving
// ------------------------------------------------------------------------

impl Document {
    #[verifier::type_invariant]
    closed spec fn nested_within_bounds(&self) -> bool {
        forall|i: int| 0 <= i < self.rems@.len() ==> fits(#[trigger] rrem_view(self.rems@[i]), 0)
    }

    /// Reads a document and resolves its closures.  It fails exactly when the
    /// text is not a document (see `document::grammar`).
    pub fn parse(input: &str) -> (res: Result<Document, ParseError>)
        requires
            parse_document(input@) matches Some(rs) ==> resolvable_rems(rs, 0),
        ensures
            match res {
                Ok(doc) => parse_document(input@) matches Some(rs) && doc@ == resolve_rems(
                    rs,
                    seq![],
                ),
                Err(_) => parse_document(input@) is None,
            },
    {
        match parser::parse(input) {
            Ok(ast) => {
                proof {
                    lemma_parse_document(input@, ast@);
                }
                Ok(Document::from_ast(&ast))
            },
            Err(e) => {
                proof {
                    if parse_document(input@) is Some {
                        lemma_parse_document(input@, parse_document(input@).unwrap());
                    }
                }
                Err(e)
            },
        }
    }

    /// Resolves the closures of a document read by `document::parser`.
    pub fn from_ast(ast: &parser::Document) -> (doc: Document)
        requires
            resolvable_rems(ast@, 0),
        ensures
            doc@ == resolve_rems(ast@, seq![]),
    {
        let src = ast.rems_iter();
        let mut parents: Vec<String> = Vec::new();
        let mut rems: Vec<Rem> = Vec::new();
        let mut i: usize = 0;
        while i < src.len()
            invariant
                0 <= i <= src@.len(),
                rems_view(src@) == ast@,
                resolvable_rems(ast@, 0),
                parents@ == Seq::<String>::empty(),
                rrems_view(rems@) == resolve_rems(ast@.take(i as int), seq![]),
            decreases src@.len() - i,
        {
            let ghost old_rems = rrems_view(rems@);
            proof {
                assert(strings_view(parents@) =~= seq![]);
                assert(src@[i as int]@ == ast@[i as int]);
            }
            let r = resolve_rem_exec(&src[i], &mut parents);
            proof {
                assert(r@ == resolve_rem(ast@[i as int], seq![]));
            }
            rems.push(r);
            proof {
                assert(rrems_view(rems@) =~= old_rems.push(r@));
                assert(ast@.take(i + 1) =~= ast@.take(i as int).push(ast@[i as int]));
            }
            i = i + 1;
            proof {
                assert(rrems_view(rems@) =~= resolve_rems(ast@.take(i as int), seq![]));
            }
        }
        proof {
            assert(ast@.take(i as int) =~= ast@);
            assert forall|j: int| 0 <= j < rems@.len() implies fits(#[trigger] rrem_view(rems@[j]), 0) by {
                assert(rrem_view(rems@[j]) == rrems_view(rems@)[j]);
                lemma_render_rems_contains(ast@, j);
                lemma_resolved_fits(ast@[j], seq![], 0);
            }
        }
        Document { rems }
    }

    pub fn rems(&self) -> (rems: &Vec<Rem>)
        ensures
            rrems_view(rems@) == self@,
            forall|i: int| 0 <= i < self@.len() ==> fits(#[trigger] self@[i], 0),
    {
        proof {
            use_type_invariant(self);
            assert forall|i: int| 0 <= i < self@.len() implies fits(#[trigger] self@[i], 0) by {
                assert(self@[i] == rrem_view(self.rems@[i]));
            }
        }
        &self.rems
    }
}

fn resolve_rem_exec(r: &parser::Rem, parents: &mut Vec<String>) -> (res: Rem)
    requires
        resolvable_rem(r@, old(parents)@.len() as nat),
    ensures
        final(parents)@ == old(parents)@,
        res@ == resolve_rem(r@, strings_view(old(parents)@)),
    decreases r@,
{
    let ghost ps = strings_view(old(parents)@);
    let id = r.id();
    parents.push(id.clone());
    proof {
        assert(strings_view(parents@) =~= ps.push(r@.id));
    }
    let src = r.content_iter();
    let mut content: Vec<Content> = Vec::new();
    let mut i: usize = 0;
    while i < src.len()
        invariant
            0 <= i <= src@.len(),
            contents_view(src@) == r@.content,
            resolvable_rem(r@, (parents@.len() - 1) as nat),
            parents@.len() > 0,
            strings_view(parents@) == ps.push(r@.id),
            rcontents_view(content@) == resolve_contents(r@.content.take(i as int), ps.push(r@.id)),
        decreases src@.len() - i,
    {
        let c = match src[i].closure() {
            Ok((location, group, text)) => {
                proof {
                    assert(r@.content[i as int] == src@[i as int]@);
                }
                let owner = parents[parents.len() - 1 - location].clone();
                proof {
                    assert(owner@ == strings_view(parents@)[parents@.len() - 1 - location]);
                }
                Content::Closure((owner, group), text)
            },
            Err(text) => Content::Text(text),
        };
        proof {
            assert(r@.content[i as int] == src@[i as int]@);
            assert(c@ == resolve_content(r@.content[i as int], ps.push(r@.id)));
        }
        let ghost before = rcontents_view(content@);
        content.push(c);
        proof {
            assert(rcontents_view(content@) =~= before.push(c@));
            assert(r@.content.take(i + 1) =~= r@.content.take(i as int).push(r@.content[i as int]));
        }
        i = i + 1;
        proof {
            assert(rcontents_view(content@) =~= resolve_contents(r@.content.take(i as int), ps.push(r@.id)));
        }
    }
    proof {
        assert(r@.content.take(i as int) =~= r@.content);
    }
    let kids = r.children_iter();
    let mut children: Vec<Rem> = Vec::new();
    let mut k: usize = 0;
    while k < kids.len()
        invariant
            0 <= k <= kids@.len(),
            rems_view(kids@) == r@.children,
            resolvable_rem(r@, (parents@.len() - 1) as nat),
            parents@.len() > 0,
            strings_view(parents@) == ps.push(r@.id),
            parents@ == old(parents)@.push(parents@.last()),
            rrems_view(children@) == resolve_rems(r@.children.take(k as int), ps.push(r@.id)),
        decreases kids@.len() - k,
    {
        proof {
            assert(r@.children[k as int] == kids@[k as int]@);
            assert(decreases_to!(r@ => r@.children[k as int]));
        }
        let child = resolve_rem_exec(&kids[k], parents);
        let ghost before = rrems_view(children@);
        proof {
            assert(child@ == resolve_rem(r@.children[k as int], ps.push(r@.id)));
        }
        children.push(child);
        proof {
            assert(rrems_view(children@) =~= before.push(child@));
            assert(r@.children.take(k + 1) =~= r@.children.take(k as int).push(r@.children[k as int]));
        }
        k = k + 1;
        proof {
            assert(rrems_view(children@) =~= resolve_rems(r@.children.take(k as int), ps.push(r@.id)));
        }
    }
    proof {
        assert(r@.children.take(k as int) =~= r@.children);
    }
    parents.pop();
    proof {
        assert(parents@ =~= old(parents)@);
    }
    let res = Rem { id, content, children };
    proof {
        lemma_rrem_view(res);
        assert(rrem_view(res).children =~= resolve_rem(r@, ps).children);
        assert(rrem_view(res).content =~= resolve_rem(r@, ps).content);
    }
    res
}

impl Rem {
    pub fn id(&self) -> (id: String)
        ensures
            id@ == self@.id,
    {
        proof {
            lemma_rrem_view(*self);
        }
        self.id.clone()
    }

    pub fn content(&self) -> (content: &Vec<Content>)
        ensures
            rcontents_view(content@) == self@.content,
    {
        proof {
            lemma_rrem_view(*self);
        }
        &self.content
    }

    pub fn children(&self) -> (children: &Vec<Rem>)
        ensures
            rrems_view(children@) == self@.children,
    {
        proof {
            lemma_rrem_view(*self);
        }
        &self.children
    }
}

impl Content {
    /// The group of a closure; `None` for plain text.
    pub fn group(&self) -> (g: Option<Group>)
        ensures
            match self@ {
                ResolvedContent::Closure(id, group, _) => g matches Some(gr) && gr.0@ == id
                    && gr.1@ == group,
                ResolvedContent::Text(_) => g is None,
            },
    {
        match self {
            Content::Closure(group, _) => Some((group.0.clone(), group.1.clone())),
            _ => None,
        }
    }

    /// A copy of the content.
    pub fn duplicate(&self) -> (c: Content)
        ensures
            c@ == self@,
    {
        match self {
            Content::Text(t) => Content::Text(t.clone()),
            Content::Closure(g, t) => Content::Closure((g.0.clone(), g.1.clone()), t.clone()),
        }
    }
}

} // verus!
