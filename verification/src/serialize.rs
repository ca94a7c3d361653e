//! Cards by closure group: each rem gathers its own contents and those of its
//! ancestors, and every group of closures on it makes a card where that group is
//! hidden and everything else is shown.
use vstd::prelude::*;
use crate::deck::document::strings_view;
use crate::document::grammar::{SpecContent, SpecRem, is_path, nested_rem_id, lemma_path_ids_step, path_ids, rem_at, lemma_render_rems_contains, render_rem, render_rems};
use crate::document::parser::{Content, Document, Rem, contents_view, rems_view, resolvable_rem, resolvable_rems};
use crate::list_map::ListMap;
use crate::order::{lemma_seq_lt_order, seq_lt, str_lt};

verus! {

// ------------------------------------------------------------------------
// The contents gathered for each rem
// ------------------------------------------------------------------------

/// A content seen `off` levels further down: a closure's location grows by `off`.
pub open spec fn shift(c: SpecContent, off: nat) -> SpecContent {
    match c {
        SpecContent::Text(t) => SpecContent::Text(t),
        SpecContent::Closure { location, group, text } => SpecContent::Closure {
            location: location + off,
            group,
            text,
        },
    }
}

pub open spec fn shifted(cs: Seq<SpecContent>, off: nat) -> Seq<SpecContent> {
    Seq::new(cs.len(), |i: int| shift(cs[i], off))
}

pub open spec fn lift(s: Seq<(Seq<char>, nat)>) -> Seq<(Seq<char>, nat)> {
    Seq::new(s.len(), |i: int| (s[i].0, s[i].1 + 1))
}

/// The rems nested in `r` and `r` itself, children first, each with how many
/// levels below `r` it is.
pub open spec fn subtree(r: SpecRem) -> Seq<(Seq<char>, nat)>
    decreases r,
{
    subtrees(r.children) + seq![(r.id, 0nat)]
}

pub open spec fn subtrees(rs: Seq<SpecRem>) -> Seq<(Seq<char>, nat)>
    decreases rs,
{
    if rs.len() == 0 {
        seq![]
    } else {
        lift(subtree(rs[0])) + subtrees(rs.drop_first())
    }
}

/// The closures among `cs` that belong to an ancestor named `k` (`parents` ends
/// with the rem that holds them), moved to that ancestor.
pub open spec fn up_contents(cs: Seq<SpecContent>, parents: Seq<Seq<char>>, k: Seq<char>) -> Seq<SpecContent>
    decreases cs.len(),
{
    if cs.len() == 0 {
        seq![]
    } else {
        up_contents(cs.drop_last(), parents, k) + match cs.last() {
            SpecContent::Closure { location, group, text } => if location > 0 && parents[parents.len() - 1
                - location] == k {
                seq![SpecContent::Closure { location: 0, group, text }]
            } else {
                seq![]
            },
            SpecContent::Text(_) => seq![],
        }
    }
}

/// The contents `cs`, once for every entry of `entries` named `k`, seen from there.
pub open spec fn down_contents(entries: Seq<(Seq<char>, nat)>, cs: Seq<SpecContent>, k: Seq<char>) -> Seq<SpecContent>
    decreases entries.len(),
{
    if entries.len() == 0 {
        seq![]
    } else {
        down_contents(entries.drop_last(), cs, k) + if entries.last().0 == k {
            shifted(cs, entries.last().1)
        } else {
            seq![]
        }
    }
}

/// What the rem `r`, below the ancestors `parents`, and the rems nested in it
/// gather for the rem named `k`.
pub open spec fn contribution(r: SpecRem, parents: Seq<Seq<char>>, k: Seq<char>) -> Seq<SpecContent>
    decreases r,
{
    contributions(r.children, parents.push(r.id), k) + up_contents(r.content, parents.push(r.id), k)
        + down_contents(subtree(r), r.content, k)
}

pub open spec fn contributions(rs: Seq<SpecRem>, parents: Seq<Seq<char>>, k: Seq<char>) -> Seq<SpecContent>
    decreases rs,
{
    if rs.len() == 0 {
        seq![]
    } else {
        contribution(rs[0], parents, k) + contributions(rs.drop_first(), parents, k)
    }
}

/// What a document gathers for the rem named `k`.
pub open spec fn content_map_of(doc: Seq<SpecRem>, k: Seq<char>) -> Seq<SpecContent> {
    contributions(doc, seq![], k)
}

proof fn lemma_up_has(cs: Seq<SpecContent>, parents: Seq<Seq<char>>, k: Seq<char>, j: int)
    requires
        0 <= j < cs.len(),
        cs[j] is Closure,
        0 < cs[j]->location < parents.len(),
        parents[parents.len() - 1 - cs[j]->location] == k,
    ensures
        up_contents(cs, parents, k).contains(SpecContent::Closure { location: 0, group: cs[j]->group, text: cs[j]->text }),
    decreases cs.len(),
{
    let x = SpecContent::Closure { location: 0, group: cs[j]->group, text: cs[j]->text };
    let u = up_contents(cs, parents, k);
    let v = up_contents(cs.drop_last(), parents, k);
    if j == cs.len() - 1 {
        assert(u[u.len() - 1] == x);
    } else {
        assert(cs.drop_last()[j] == cs[j]);
        lemma_up_has(cs.drop_last(), parents, k, j);
        let m = choose|m: int| 0 <= m < v.len() && v[m] == x;
        assert(u[m] == x);
    }
}

proof fn lemma_contributions_has(rs: Seq<SpecRem>, parents: Seq<Seq<char>>, k: Seq<char>, i: int, x: SpecContent)
    requires
        0 <= i < rs.len(),
        contribution(rs[i], parents, k).contains(x),
    ensures
        contributions(rs, parents, k).contains(x),
    decreases i,
{
    let all = contributions(rs, parents, k);
    let first = contribution(rs[0], parents, k);
    if i == 0 {
        let m = choose|m: int| 0 <= m < first.len() && first[m] == x;
        assert(all[m] == x);
    } else {
        assert(rs.drop_first()[i - 1] == rs[i]);
        lemma_contributions_has(rs.drop_first(), parents, k, i - 1, x);
        let rest = contributions(rs.drop_first(), parents, k);
        let m = choose|m: int| 0 <= m < rest.len() && rest[m] == x;
        assert(all[first.len() + m] == x);
    }
}

proof fn lemma_gathered_at(rs: Seq<SpecRem>, parents: Seq<Seq<char>>, p: Seq<int>, k: Seq<char>, x: SpecContent)
    requires
        is_path(rs, p),
        up_contents(rem_at(rs, p).content, parents + path_ids(rs, p), k).contains(x),
    ensures
        contributions(rs, parents, k).contains(x),
    decreases p.len(),
{
    let r0 = rs[p[0]];
    let ps = parents.push(r0.id);
    let c = contribution(r0, parents, k);
    let kids = contributions(r0.children, ps, k);
    let up = up_contents(r0.content, ps, k);
    if p.len() == 1 {
        assert(path_ids(rs, p) =~= seq![r0.id]) by {
            assert(p.take(1).len() == 1 && p.take(1)[0] == p[0]);
        }
        assert(parents + path_ids(rs, p) =~= ps);
        let m = choose|m: int| 0 <= m < up.len() && up[m] == x;
        assert(c[kids.len() + m] == x);
    } else {
        lemma_path_ids_step(rs, p);
        assert(parents + path_ids(rs, p) =~= ps + path_ids(r0.children, p.drop_first()));
        lemma_gathered_at(r0.children, ps, p.drop_first(), k, x);
        let m = choose|m: int| 0 <= m < kids.len() && kids[m] == x;
        assert(c[m] == x);
    }
    lemma_contributions_has(rs, parents, k, p[0], x);
}

proof fn lemma_subtrees_has(rs: Seq<SpecRem>, i: int, x: (Seq<char>, nat))
    requires
        0 <= i < rs.len(),
        lift(subtree(rs[i])).contains(x),
    ensures
        subtrees(rs).contains(x),
    decreases i,
{
    let all = subtrees(rs);
    let first = lift(subtree(rs[0]));
    if i == 0 {
        let m = choose|m: int| 0 <= m < first.len() && first[m] == x;
        assert(all[m] == x);
    } else {
        assert(rs.drop_first()[i - 1] == rs[i]);
        lemma_subtrees_has(rs.drop_first(), i - 1, x);
        let rest = subtrees(rs.drop_first());
        let m = choose|m: int| 0 <= m < rest.len() && rest[m] == x;
        assert(all[first.len() + m] == x);
    }
}

proof fn lemma_subtree_has(r: SpecRem, q: Seq<int>)
    requires
        q.len() == 0 || is_path(r.children, q),
    ensures
        subtree(r).contains((nested_rem_id(r, q), q.len())),
    decreases q.len(),
{
    let st = subtree(r);
    let below = subtrees(r.children);
    if q.len() == 0 {
        assert(st[below.len() as int] == (r.id, 0nat));
    } else {
        let c = r.children[q[0]];
        let q2 = q.drop_first();
        lemma_subtree_has(c, q2);
        assert(nested_rem_id(c, q2) == nested_rem_id(r, q));
        let sc = subtree(c);
        let m = choose|m: int| 0 <= m < sc.len() && sc[m] == (nested_rem_id(c, q2), q2.len());
        assert(lift(sc)[m] == (nested_rem_id(r, q), q.len()));
        lemma_subtrees_has(r.children, q[0], (nested_rem_id(r, q), q.len()));
        let m2 = choose|m2: int| 0 <= m2 < below.len() && below[m2] == (nested_rem_id(r, q), q.len());
        assert(st[m2] == (nested_rem_id(r, q), q.len()));
    }
}

proof fn lemma_down_has(entries: Seq<(Seq<char>, nat)>, cs: Seq<SpecContent>, k: Seq<char>, off: nat, i: int)
    requires
        entries.contains((k, off)),
        0 <= i < cs.len(),
    ensures
        down_contents(entries, cs, k).contains(shift(cs[i], off)),
    decreases entries.len(),
{
    let all = down_contents(entries, cs, k);
    let before = down_contents(entries.drop_last(), cs, k);
    if entries.last() == (k, off) {
        assert(all[before.len() + i] == shift(cs[i], off));
    } else {
        let m = choose|m: int| 0 <= m < entries.len() && entries[m] == (k, off);
        assert(entries.drop_last()[m] == (k, off));
        lemma_down_has(entries.drop_last(), cs, k, off, i);
        let m2 = choose|m2: int| 0 <= m2 < before.len() && before[m2] == shift(cs[i], off);
        assert(all[m2] == shift(cs[i], off));
    }
}

proof fn lemma_gathered_down_at(rs: Seq<SpecRem>, parents: Seq<Seq<char>>, p: Seq<int>, k: Seq<char>, x: SpecContent)
    requires
        is_path(rs, p),
        down_contents(subtree(rem_at(rs, p)), rem_at(rs, p).content, k).contains(x),
    ensures
        contributions(rs, parents, k).contains(x),
    decreases p.len(),
{
    let r0 = rs[p[0]];
    let ps = parents.push(r0.id);
    let c = contribution(r0, parents, k);
    let kids = contributions(r0.children, ps, k);
    let up = up_contents(r0.content, ps, k);
    let down = down_contents(subtree(r0), r0.content, k);
    if p.len() == 1 {
        let m = choose|m: int| 0 <= m < down.len() && down[m] == x;
        assert(c[kids.len() + up.len() + m] == x);
    } else {
        lemma_path_ids_step(rs, p);
        lemma_gathered_down_at(r0.children, ps, p.drop_first(), k, x);
        let m = choose|m: int| 0 <= m < kids.len() && kids[m] == x;
        assert(c[m] == x);
    }
    lemma_contributions_has(rs, parents, k, p[0], x);
}

/// Each rem gathers the contents of every rem it is nested in, and its own: the
/// rem that `q` leads to below the rem at `p` gathers each content of the latter,
/// a closure with its location raised by the length of `q` (the number of levels
/// between them), so that it still names the same rem.
pub proof fn lemma_contents_gathered_below(rs: Seq<SpecRem>, p: Seq<int>, q: Seq<int>, i: int)
    requires
        is_path(rs, p),
        q.len() == 0 || is_path(rem_at(rs, p).children, q),
        0 <= i < rem_at(rs, p).content.len(),
    ensures
        content_map_of(rs, nested_rem_id(rem_at(rs, p), q)).contains(
            match rem_at(rs, p).content[i] {
                SpecContent::Text(t) => SpecContent::Text(t),
                SpecContent::Closure { location, group, text } => SpecContent::Closure {
                    location: location + q.len(),
                    group,
                    text,
                },
            },
        ),
{
    let r = rem_at(rs, p);
    let k = nested_rem_id(r, q);
    lemma_subtree_has(r, q);
    lemma_down_has(subtree(r), r.content, k, q.len(), i);
    lemma_gathered_down_at(rs, seq![], p, k, shift(r.content[i], q.len()));
}

/// A closure `location` levels up (with at least one caret) is gathered, as a
/// closure of the rem itself (no caret), by the rem `location` levels above the
/// rem that holds it; it is sent up to that rem's id and to no other.
pub proof fn lemma_closure_gathered_by_owner(rs: Seq<SpecRem>, p: Seq<int>, j: int)
    requires
        is_path(rs, p),
        0 <= j < rem_at(rs, p).content.len(),
        rem_at(rs, p).content[j] is Closure,
        0 < rem_at(rs, p).content[j]->location < p.len(),
    ensures
        content_map_of(rs, rem_at(rs, p.take(p.len() - rem_at(rs, p).content[j]->location)).id).contains(
            SpecContent::Closure {
                location: 0,
                group: rem_at(rs, p).content[j]->group,
                text: rem_at(rs, p).content[j]->text,
            },
        ),
        forall|k: Seq<char>| #[trigger] up_contents(seq![rem_at(rs, p).content[j]], path_ids(rs, p), k) == if k == rem_at(
            rs,
            p.take(p.len() - rem_at(rs, p).content[j]->location),
        ).id {
            seq![SpecContent::Closure { location: 0, group: rem_at(rs, p).content[j]->group, text: rem_at(rs, p).content[j]->text }]
        } else {
            Seq::<SpecContent>::empty()
        },
{
    let r = rem_at(rs, p);
    let l = r.content[j]->location;
    let ids = path_ids(rs, p);
    let k = rem_at(rs, p.take(p.len() - l)).id;
    assert(Seq::<Seq<char>>::empty() + ids =~= ids);
    assert(ids[p.len() - 1 - l] == k);
    lemma_up_has(r.content, ids, k, j);
    lemma_gathered_at(rs, seq![], p, k, SpecContent::Closure { location: 0, group: r.content[j]->group, text: r.content[j]->text });
    let one = seq![r.content[j]];
    assert(one.drop_last() =~= Seq::<SpecContent>::empty());
    assert(one.last() == r.content[j]);
    assert forall|k2: Seq<char>| #[trigger] up_contents(one, ids, k2) == if k2 == k {
        seq![SpecContent::Closure { location: 0, group: r.content[j]->group, text: r.content[j]->text }]
    } else {
        Seq::<SpecContent>::empty()
    } by {
        assert(up_contents(one.drop_last(), ids, k2) =~= Seq::<SpecContent>::empty());
        assert(Seq::<SpecContent>::empty() + seq![SpecContent::Closure { location: 0, group: r.content[j]->group, text: r.content[j]->text }]
            =~= seq![SpecContent::Closure { location: 0, group: r.content[j]->group, text: r.content[j]->text }]);
        assert(Seq::<SpecContent>::empty() + Seq::<SpecContent>::empty() =~= Seq::<SpecContent>::empty());
    }
}

proof fn lemma_contributions_snoc(rs: Seq<SpecRem>, r: SpecRem, parents: Seq<Seq<char>>, k: Seq<char>)
    ensures
        contributions(rs.push(r), parents, k) == contributions(rs, parents, k) + contribution(r, parents, k),
    decreases rs.len(),
{
    if rs.len() == 0 {
        let one = seq![r];
        assert(one.drop_first() =~= Seq::<SpecRem>::empty());
        assert(rs.push(r) =~= one);
        assert(contributions(one.drop_first(), parents, k) =~= Seq::<SpecContent>::empty());
        assert(contributions(rs, parents, k) =~= Seq::<SpecContent>::empty());
        assert(contribution(r, parents, k) + Seq::<SpecContent>::empty() =~= contribution(r, parents, k));
        assert(Seq::<SpecContent>::empty() + contribution(r, parents, k) =~= contribution(r, parents, k));
    } else {
        assert(rs.push(r).drop_first() =~= rs.drop_first().push(r));
        assert(rs.push(r)[0] == rs[0]);
        lemma_contributions_snoc(rs.drop_first(), r, parents, k);
        assert(contribution(rs[0], parents, k) + (contributions(rs.drop_first(), parents, k) + contribution(r, parents, k))
            =~= (contribution(rs[0], parents, k) + contributions(rs.drop_first(), parents, k)) + contribution(r, parents, k));
    }
}

proof fn lemma_subtrees_snoc(rs: Seq<SpecRem>, r: SpecRem)
    ensures
        subtrees(rs.push(r)) == subtrees(rs) + lift(subtree(r)),
    decreases rs.len(),
{
    if rs.len() == 0 {
        let one = seq![r];
        assert(one.drop_first() =~= Seq::<SpecRem>::empty());
        assert(rs.push(r) =~= one);
        assert(subtrees(one.drop_first()) =~= Seq::<(Seq<char>, nat)>::empty());
        assert(subtrees(rs) =~= Seq::<(Seq<char>, nat)>::empty());
        assert(lift(subtree(r)) + Seq::<(Seq<char>, nat)>::empty() =~= lift(subtree(r)));
        assert(Seq::<(Seq<char>, nat)>::empty() + lift(subtree(r)) =~= lift(subtree(r)));
    } else {
        assert(rs.push(r).drop_first() =~= rs.drop_first().push(r));
        assert(rs.push(r)[0] == rs[0]);
        lemma_subtrees_snoc(rs.drop_first(), r);
        assert(lift(subtree(rs[0])) + (subtrees(rs.drop_first()) + lift(subtree(r)))
            =~= (lift(subtree(rs[0])) + subtrees(rs.drop_first())) + lift(subtree(r)));
    }
}

/// Every rem in the subtree of `r` is fewer levels below it than its text is long.
proof fn lemma_subtree_offsets(r: SpecRem)
    ensures
        forall|i: int| 0 <= i < subtree(r).len() ==> #[trigger] subtree(r)[i].1 < render_rem(r).len(),
    decreases r,
{
    lemma_subtrees_offsets(r.children);
    let s = subtree(r);
    assert forall|i: int| 0 <= i < s.len() implies #[trigger] s[i].1 < render_rem(r).len() by {
        if i < subtrees(r.children).len() {
            assert(s[i] == subtrees(r.children)[i]);
        }
    }
}

proof fn lemma_subtrees_offsets(rs: Seq<SpecRem>)
    ensures
        forall|i: int| 0 <= i < subtrees(rs).len() ==> #[trigger] subtrees(rs)[i].1 < render_rems(rs).len(),
    decreases rs,
{
    if rs.len() > 0 {
        lemma_subtree_offsets(rs[0]);
        lemma_subtrees_offsets(rs.drop_first());
        let a = lift(subtree(rs[0]));
        let s = subtrees(rs);
        assert forall|i: int| 0 <= i < s.len() implies #[trigger] s[i].1 < render_rems(rs).len() by {
            if i < a.len() {
                assert(s[i] == a[i]);
                assert(subtree(rs[0])[i].1 < render_rem(rs[0]).len());
            } else {
                assert(s[i] == subtrees(rs.drop_first())[i - a.len()]);
            }
        }
    }
}


pub open spec fn pairs_view(v: Seq<(String, usize)>) -> Seq<(Seq<char>, nat)> {
    Seq::new(v.len(), |i: int| (v[i].0@, v[i].1 as nat))
}

proof fn lemma_contents_view_push(s: Seq<Content>, x: Content)
    ensures
        contents_view(s.push(x)) == contents_view(s).push(x@),
{
    assert(contents_view(s.push(x)) =~= contents_view(s).push(x@));
}

/// Everything a map gathers for a key, before and after one more list is added to it.
pub open spec fn gathered(m: ListMap<Content>, k: Seq<char>) -> Seq<SpecContent> {
    contents_view(m.lookup(k))
}

impl Rem {
    /// Gathers, for each rem, what this rem (below the ancestors `parents`) and
    /// the rems nested in it contribute: each rem's own contents and those of its
    /// ancestors, and the closures that belong to it.  Returns the rems of the
    /// subtree, each with how many levels below this one it is.
    pub fn insert_into(&self, map: &mut ListMap<Content>, parents: &mut Vec<String>) -> (sub: Vec<(String, usize)>)
        requires
            resolvable_rem(self@, old(parents)@.len() as nat),
            old(parents)@.len() + render_rem(self@).len() <= usize::MAX,
        ensures
            final(parents)@ == old(parents)@,
            pairs_view(sub@) == subtree(self@),
            forall|k: Seq<char>| #[trigger] gathered(*final(map), k) == gathered(*old(map), k) + contribution(
                self@,
                strings_view(old(parents)@),
                k,
            ),
        decreases self@,
    {
        let ghost r = self@;
        let ghost ps = strings_view(parents@);
        let ghost depth = parents@.len();
        let ghost start = *map;
        let id = self.id();
        parents.push(id.clone());
        let ghost ps2 = ps.push(r.id);
        proof {
            assert(strings_view(parents@) =~= ps2);
            lemma_subtree_offsets(r);
        }
        // the rems nested in this one first
        let children = self.children_iter();
        let mut sub: Vec<(String, usize)> = Vec::new();
        let mut j: usize = 0;
        while j < children.len()
            invariant
                0 <= j <= children@.len(),
                rems_view(children@) == r.children,
                r == self@,
                resolvable_rem(r, depth as nat),
                depth + render_rem(r).len() <= usize::MAX,
                parents@.len() == depth + 1,
                strings_view(parents@) == ps2,
                parents@ == old(parents)@.push(parents@.last()),
                pairs_view(sub@) == subtrees(r.children.take(j as int)),
                forall|k: Seq<char>| #[trigger] gathered(*map, k) == gathered(start, k) + contributions(r.children.take(j as int), ps2, k),
            decreases children@.len() - j,
        {
            let ghost child = r.children[j as int];
            proof {
                assert(children@[j as int]@ == child);
                assert(decreases_to!(r => r.children[j as int]));
                lemma_render_rems_contains(r.children, j as int);
                assert(resolvable_rem(child, depth as nat + 1));
            }
            let ghost before = *map;
            let child_sub = children[j].insert_into(map, parents);
            proof {
                lemma_subtree_offsets(child);
            }
            let ghost sub_before = pairs_view(sub@);
            let mut m: usize = 0;
            while m < child_sub.len()
                invariant
                    0 <= m <= child_sub@.len(),
                    pairs_view(child_sub@) == subtree(child),
                    forall|i: int| 0 <= i < subtree(child).len() ==> #[trigger] subtree(child)[i].1 < render_rem(child).len(),
                    render_rem(child).len() <= usize::MAX,
                    pairs_view(sub@) == sub_before + lift(subtree(child)).take(m as int),
                decreases child_sub@.len() - m,
            {
                proof {
                    assert(subtree(child)[m as int].1 == child_sub@[m as int].1);
                }
                let entry = (child_sub[m].0.clone(), child_sub[m].1 + 1);
                let ghost pv_before = pairs_view(sub@);
                sub.push(entry);
                proof {
                    assert(pairs_view(sub@) =~= pv_before.push((entry.0@, entry.1 as nat)));
                    assert(lift(subtree(child)).take(m + 1) =~= lift(subtree(child)).take(m as int).push(lift(subtree(child))[m as int]));
                }
                m = m + 1;
            }
            proof {
                assert(lift(subtree(child)).take(m as int) =~= lift(subtree(child)));
                assert(r.children.take(j + 1) =~= r.children.take(j as int).push(child));
                lemma_subtrees_snoc(r.children.take(j as int), child);
                assert forall|k: Seq<char>| #[trigger] gathered(*map, k) == gathered(start, k) + contributions(r.children.take(j + 1), ps2, k) by {
                    lemma_contributions_snoc(r.children.take(j as int), child, ps2, k);
                    assert(gathered(start, k) + contributions(r.children.take(j as int), ps2, k) + contribution(child, ps2, k)
                        =~= gathered(start, k) + (contributions(r.children.take(j as int), ps2, k) + contribution(child, ps2, k)));
                }
            }
            j = j + 1;
        }
        proof {
            assert(r.children.take(j as int) =~= r.children);
        }
        let ghost sub_children = pairs_view(sub@);
        sub.push((id.clone(), 0));
        proof {
            assert(pairs_view(sub@) =~= sub_children.push((r.id, 0nat)));
            assert(pairs_view(sub@) =~= subtree(r));
        }
        // the closures that belong to an ancestor go up to it
        let content = self.content_iter();
        let ghost after_children = *map;
        let mut i: usize = 0;
        while i < content.len()
            invariant
                0 <= i <= content@.len(),
                contents_view(content@) == r.content,
                r == self@,
                resolvable_rem(r, depth as nat),
                parents@.len() == depth + 1,
                strings_view(parents@) == ps2,
                forall|k: Seq<char>| #[trigger] gathered(*map, k) == gathered(after_children, k) + up_contents(r.content.take(i as int), ps2, k),
            decreases content@.len() - i,
        {
            let ghost c = r.content[i as int];
            proof {
                assert(content@[i as int]@ == c);
                assert(r.content.take(i + 1).drop_last() =~= r.content.take(i as int));
                assert(r.content.take(i + 1).last() == c);
            }
            let ghost before = *map;
            match content[i].closure() {
                Ok((location, group, text)) => {
                    if location > 0 {
                        let owner = parents[parents.len() - location - 1].clone();
                        proof {
                            assert(owner@ == ps2[ps2.len() - 1 - location]);
                        }
                        let moved = Content::to_closure(0, group, text);
                        let ghost mv = moved@;
                        map.extend_at(owner, moved);
                        proof {
                            assert forall|k: Seq<char>| #[trigger] gathered(*map, k) == gathered(after_children, k) + up_contents(r.content.take(i + 1), ps2, k) by {
                                lemma_contents_view_push(before.lookup(k), moved);
                                let t = r.content.take(i + 1);
                                assert(t.drop_last() =~= r.content.take(i as int));
                                assert(t.last() == c);
                                assert(gathered(before, k) == gathered(after_children, k) + up_contents(r.content.take(i as int), ps2, k));
                                if k == ps2[ps2.len() - 1 - location] {
                                    assert(gathered(*map, k) =~= gathered(before, k).push(mv));
                                    assert(up_contents(t, ps2, k) =~= up_contents(r.content.take(i as int), ps2, k) + seq![mv]);
                                    assert(gathered(after_children, k) + up_contents(r.content.take(i as int), ps2, k) + seq![mv]
                                        =~= gathered(after_children, k) + (up_contents(r.content.take(i as int), ps2, k) + seq![mv]));
                                } else {
                                    assert(gathered(*map, k) == gathered(before, k));
                                    assert(up_contents(t, ps2, k) =~= up_contents(r.content.take(i as int), ps2, k));
                                }
                            }
                        }
                    } else {
                        proof {
                            assert forall|k: Seq<char>| #[trigger] gathered(*map, k) == gathered(after_children, k) + up_contents(r.content.take(i + 1), ps2, k) by {
                                assert(up_contents(r.content.take(i + 1), ps2, k) =~= up_contents(r.content.take(i as int), ps2, k));
                            }
                        }
                    }
                },
                Err(_) => {
                    proof {
                        assert forall|k: Seq<char>| #[trigger] gathered(*map, k) == gathered(after_children, k) + up_contents(r.content.take(i + 1), ps2, k) by {
                            assert(up_contents(r.content.take(i + 1), ps2, k) =~= up_contents(r.content.take(i as int), ps2, k));
                        }
                    }
                },
            }
            i = i + 1;
        }
        proof {
            assert(r.content.take(i as int) =~= r.content);
        }
        // and every rem of the subtree gets this rem's contents, seen from there
        let ghost after_up = *map;
        let mut e: usize = 0;
        while e < sub.len()
            invariant
                0 <= e <= sub@.len(),
                pairs_view(sub@) == subtree(r),
                contents_view(content@) == r.content,
                depth + render_rem(r).len() <= usize::MAX,
                resolvable_rem(r, depth as nat),
                forall|x: int| 0 <= x < subtree(r).len() ==> #[trigger] subtree(r)[x].1 < render_rem(r).len(),
                forall|k: Seq<char>| #[trigger] gathered(*map, k) == gathered(after_up, k) + down_contents(subtree(r).take(e as int), r.content, k),
            decreases sub@.len() - e,
        {
            let off = sub[e].1;
            let ghost name = sub@[e as int].0@;
            proof {
                assert(subtree(r)[e as int].1 == off);
                assert(subtree(r)[e as int].0 == name);
            }
            let ghost base = *map;
            let mut i: usize = 0;
            while i < content.len()
                invariant
                    0 <= i <= content@.len(),
                    contents_view(content@) == r.content,
                    depth + render_rem(r).len() <= usize::MAX,
                    resolvable_rem(r, depth as nat),
                    (off as int) < render_rem(r).len(),
                    e < sub@.len(),
                    name == sub@[e as int].0@,
                    forall|k: Seq<char>| #[trigger] gathered(*map, k) == gathered(base, k) + if k == name {
                        shifted(r.content.take(i as int), off as nat)
                    } else {
                        seq![]
                    },
                decreases content@.len() - i,
            {
                let ghost c = r.content[i as int];
                proof {
                    assert(content@[i as int]@ == c);
                }
                let seen = match content[i].closure() {
                    Ok((location, group, text)) => {
                        proof {
                            assert(location <= depth);
                        }
                        Content::to_closure(location + off, group, text)
                    },
                    Err(text) => Content::to_text(text),
                };
                proof {
                    assert(seen@ == shift(c, off as nat));
                }
                let ghost before = *map;
                let ghost sv = seen@;
                let key = sub[e].0.clone();
                assert(key@ == name);
                map.extend_at(key, seen);
                proof {
                    assert(shifted(r.content.take(i + 1), off as nat) =~= shifted(r.content.take(i as int), off as nat).push(sv));
                    assert forall|k: Seq<char>| #[trigger] gathered(*map, k) == gathered(base, k) + if k == name {
                        shifted(r.content.take(i + 1), off as nat)
                    } else {
                        seq![]
                    } by {
                        lemma_contents_view_push(before.lookup(k), seen);
                        assert(gathered(before, k) == gathered(base, k) + if k == name {
                            shifted(r.content.take(i as int), off as nat)
                        } else {
                            seq![]
                        });
                        if k == name {
                            assert(gathered(*map, k) =~= gathered(before, k).push(sv));
                            assert(gathered(base, k) + shifted(r.content.take(i as int), off as nat) + seq![sv]
                                =~= gathered(base, k) + shifted(r.content.take(i + 1), off as nat));
                        } else {
                            assert(gathered(*map, k) == gathered(before, k));
                        }
                    }
                }
                i = i + 1;
            }
            proof {
                assert(r.content.take(i as int) =~= r.content);
                assert(subtree(r).take(e + 1).drop_last() =~= subtree(r).take(e as int));
                assert(subtree(r).take(e + 1).last() == subtree(r)[e as int]);
                assert forall|k: Seq<char>| #[trigger] gathered(*map, k) == gathered(after_up, k) + down_contents(subtree(r).take(e + 1), r.content, k) by {
                    assert(gathered(after_up, k) + down_contents(subtree(r).take(e as int), r.content, k) + (if k == name { shifted(r.content, off as nat) } else { seq![] })
                        =~= gathered(after_up, k) + (down_contents(subtree(r).take(e as int), r.content, k) + (if k == name { shifted(r.content, off as nat) } else { seq![] })));
                }
            }
            e = e + 1;
        }
        proof {
            assert(subtree(r).take(e as int) =~= subtree(r));
        }
        parents.pop();
        proof {
            assert(parents@ =~= old(parents)@);
            assert forall|k: Seq<char>| #[trigger] gathered(*map, k) == gathered(start, k) + contribution(r, ps, k) by {
                assert(gathered(start, k) + contributions(r.children, ps2, k) + up_contents(r.content, ps2, k) + down_contents(subtree(r), r.content, k)
                    =~= gathered(start, k) + (contributions(r.children, ps2, k) + up_contents(r.content, ps2, k) + down_contents(subtree(r), r.content, k)));
            }
        }
        sub
    }
}

impl Document {
    /// For each rem, everything it gathers (see `Rem::insert_into`).
    pub fn content_map(&self) -> (m: ListMap<Content>)
        requires
            resolvable_rems(self@, 0),
        ensures
            forall|k: Seq<char>| #[trigger] gathered(m, k) == content_map_of(self@, k),
    {
        let rems = self.rems_iter();
        let mut m: ListMap<Content> = ListMap::new();
        let mut parents: Vec<String> = Vec::new();
        let mut i: usize = 0;
        while i < rems.len()
            invariant
                0 <= i <= rems@.len(),
                rems_view(rems@) == self@,
                render_rems(self@).len() <= usize::MAX,
                resolvable_rems(self@, 0),
                parents@ == Seq::<String>::empty(),
                forall|k: Seq<char>| #[trigger] gathered(m, k) == contributions(self@.take(i as int), seq![], k),
            decreases rems@.len() - i,
        {
            proof {
                assert(rems@[i as int]@ == self@[i as int]);
                lemma_render_rems_contains(self@, i as int);
                assert(strings_view(parents@) =~= Seq::<Seq<char>>::empty());
            }
            let ghost before = m;
            let _ = rems[i].insert_into(&mut m, &mut parents);
            proof {
                assert(self@.take(i + 1) =~= self@.take(i as int).push(self@[i as int]));
                assert forall|k: Seq<char>| #[trigger] gathered(m, k) == contributions(self@.take(i + 1), seq![], k) by {
                    lemma_contributions_snoc(self@.take(i as int), self@[i as int], seq![], k);
                }
            }
            i = i + 1;
        }
        proof {
            assert(self@.take(i as int) =~= self@);
            assert forall|k: Seq<char>| #[trigger] gathered(m, k) == content_map_of(self@, k) by {}
        }
        m
    }
}

// ------------------------------------------------------------------------
// One card for each closure group a rem sees
// ------------------------------------------------------------------------

/// A piece of a card: shown, or hidden until the answer is given.
#[derive(Debug, PartialEq, Eq)]
pub enum Segment {
    Visible(String),
    Hidden(String),
}

pub enum SpecSegment {
    Visible(Seq<char>),
    Hidden(Seq<char>),
}

impl View for Segment {
    type V = SpecSegment;

    open spec fn view(&self) -> SpecSegment {
        match self {
            Segment::Visible(t) => SpecSegment::Visible(t@),
            Segment::Hidden(t) => SpecSegment::Hidden(t@),
        }
    }
}

/// Whether `c` is a closure at `location` in `group`.
pub open spec fn is_closure_of(c: SpecContent, location: nat, group: Seq<char>) -> bool {
    match c {
        SpecContent::Closure { location: l, group: g, .. } => l == location && g == group,
        SpecContent::Text(_) => false,
    }
}

/// How `c` shows on the card of the closures at `location` in `group`.
pub open spec fn segment_of(c: SpecContent, location: nat, group: Seq<char>) -> SpecSegment {
    match c {
        SpecContent::Closure { text, .. } => if is_closure_of(c, location, group) {
            SpecSegment::Hidden(text)
        } else {
            SpecSegment::Visible(text)
        },
        SpecContent::Text(t) => SpecSegment::Visible(t),
    }
}

pub open spec fn card_segments(cs: Seq<SpecContent>, location: nat, group: Seq<char>) -> Seq<SpecSegment> {
    Seq::new(cs.len(), |i: int| segment_of(cs[i], location, group))
}

pub open spec fn has_closure(cs: Seq<SpecContent>, location: nat, group: Seq<char>) -> bool {
    exists|i: int| 0 <= i < cs.len() && #[trigger] is_closure_of(cs[i], location, group)
}

/// The cards of a document: for each rem and each closure (location and group)
/// among what it gathers, the gathered contents with that closure hidden.
pub open spec fn cards_of(doc: Seq<SpecRem>) -> Map<(Seq<char>, nat, Seq<char>), Seq<SpecSegment>> {
    Map::new(
        |key: (Seq<char>, nat, Seq<char>)| has_closure(content_map_of(doc, key.0), key.1, key.2),
        |key: (Seq<char>, nat, Seq<char>)| card_segments(content_map_of(doc, key.0), key.1, key.2),
    )
}

/// On the card of rem `key.0` for the closures at location `key.1` in group
/// `key.2`, the `i`-th segment shows the `i`-th content that rem gathers, with
/// its text: hidden exactly when that content is a closure at that very location
/// in that very group, shown otherwise (a closure of the group at another
/// location included).
pub proof fn lemma_card_segment(doc: Seq<SpecRem>, key: (Seq<char>, nat, Seq<char>), i: int)
    requires
        cards_of(doc).contains_key(key),
        0 <= i < content_map_of(doc, key.0).len(),
    ensures
        cards_of(doc)[key].len() == content_map_of(doc, key.0).len(),
        match (cards_of(doc)[key][i], content_map_of(doc, key.0)[i]) {
            (SpecSegment::Hidden(shown), SpecContent::Closure { location, group, text }) => location == key.1
                && group == key.2 && shown == text,
            (SpecSegment::Visible(shown), SpecContent::Closure { location, group, text }) => !(location == key.1
                && group == key.2) && shown == text,
            (SpecSegment::Visible(shown), SpecContent::Text(text)) => shown == text,
            (SpecSegment::Hidden(_), SpecContent::Text(_)) => false,
        },
{
}

/// Every card hides something, and has one segment for each content its rem
/// gathers.
pub proof fn lemma_card_hides(doc: Seq<SpecRem>, key: (Seq<char>, nat, Seq<char>))
    requires
        cards_of(doc).contains_key(key),
    ensures
        cards_of(doc)[key].len() == content_map_of(doc, key.0).len(),
        exists|i: int| 0 <= i < cards_of(doc)[key].len() && #[trigger] cards_of(doc)[key][i] is Hidden,
{
    let cs = content_map_of(doc, key.0);
    let i = choose|i: int| 0 <= i < cs.len() && #[trigger] is_closure_of(cs[i], key.1, key.2);
    assert(cards_of(doc)[key][i] is Hidden);
}

pub open spec fn card_key_view(k: (String, usize, String)) -> (Seq<char>, nat, Seq<char>) {
    (k.0@, k.1 as nat, k.2@)
}

pub open spec fn segments_view(s: Seq<Segment>) -> Seq<SpecSegment> {
    Seq::new(s.len(), |i: int| s[i]@)
}

/// Cards by rem, location and group, each key once.
pub struct CardMap {
    entries: Vec<((String, usize, String), Vec<Segment>)>,
}

pub open spec fn distinct_card_keys(e: Seq<((String, usize, String), Vec<Segment>)>) -> bool {
    forall|i: int, j: int|
        0 <= i < j < e.len() ==> #[trigger] card_key_view(e[i].0) != #[trigger] card_key_view(e[j].0)
}

/// The order of card keys: by rem id, then location, then group.
pub open spec fn card_key_lt(a: (Seq<char>, nat, Seq<char>), b: (Seq<char>, nat, Seq<char>)) -> bool {
    ||| seq_lt(a.0, b.0)
    ||| (a.0 == b.0 && a.1 < b.1)
    ||| (a.0 == b.0 && a.1 == b.1 && seq_lt(a.2, b.2))
}

/// The order of card keys is strict, transitive and total.
pub proof fn lemma_card_key_lt_order(a: (Seq<char>, nat, Seq<char>), b: (Seq<char>, nat, Seq<char>), c: (Seq<char>, nat, Seq<char>))
    ensures
        !card_key_lt(a, a),
        card_key_lt(a, b) ==> !card_key_lt(b, a),
        card_key_lt(a, b) && card_key_lt(b, c) ==> card_key_lt(a, c),
        a != b ==> card_key_lt(a, b) || card_key_lt(b, a),
{
    lemma_seq_lt_order(a.0, b.0, c.0);
    lemma_seq_lt_order(a.2, b.2, c.2);
}

pub open spec fn sorted_card_keys(e: Seq<((String, usize, String), Vec<Segment>)>) -> bool {
    forall|i: int, j: int|
        0 <= i < j < e.len() ==> card_key_lt(card_key_view(#[trigger] e[i].0), card_key_view(#[trigger] e[j].0))
}

proof fn lemma_sorted_distinct(e: Seq<((String, usize, String), Vec<Segment>)>)
    requires
        sorted_card_keys(e),
    ensures
        distinct_card_keys(e),
{
    assert forall|i: int, j: int| 0 <= i < j < e.len() implies #[trigger] card_key_view(e[i].0)
        != #[trigger] card_key_view(e[j].0) by {
        lemma_card_key_lt_order(card_key_view(e[i].0), card_key_view(e[j].0), card_key_view(e[j].0));
    }
}

/// Whether the key `a` comes before the key `b`.
fn card_key_less(a: &(String, usize, String), b: &(String, usize, String)) -> (r: bool)
    ensures
        r == card_key_lt(card_key_view(*a), card_key_view(*b)),
{
    if str_lt(a.0.as_str(), b.0.as_str()) {
        true
    } else if a.0 == b.0 {
        if a.1 < b.1 {
            true
        } else if a.1 == b.1 {
            str_lt(a.2.as_str(), b.2.as_str())
        } else {
            false
        }
    } else {
        false
    }
}

/// Puts a card whose key is not yet there at its place in the order of keys.
fn insert_card(e: &mut Vec<((String, usize, String), Vec<Segment>)>, item: ((String, usize, String), Vec<Segment>)) -> (p: usize)
    requires
        sorted_card_keys(old(e)@),
        forall|x: int| 0 <= x < old(e)@.len() ==> #[trigger] card_key_view(old(e)@[x].0) != card_key_view(item.0),
    ensures
        p <= old(e)@.len(),
        final(e)@ == old(e)@.insert(p as int, item),
        sorted_card_keys(final(e)@),
{
    let ghost k0 = card_key_view(item.0);
    let mut i: usize = 0;
    let mut found = false;
    while !found && i < e.len()
        invariant
            0 <= i <= e@.len(),
            e@ == old(e)@,
            k0 == card_key_view(item.0),
            forall|j: int| 0 <= j < i ==> card_key_lt(card_key_view(#[trigger] e@[j].0), k0),
            found ==> i < e@.len() && !card_key_lt(card_key_view(e@[i as int].0), k0),
        decreases e@.len() - i + if found { 0int } else { 1int },
    {
        if card_key_less(&e[i].0, &item.0) {
            i = i + 1;
        } else {
            found = true;
        }
    }
    let ghost old_e = e@;
    e.insert(i, item);
    proof {
        assert forall|a: int, b: int| 0 <= a < b < e@.len() implies card_key_lt(
            card_key_view(#[trigger] e@[a].0),
            card_key_view(#[trigger] e@[b].0),
        ) by {
            if b < i {
                assert(e@[a] == old_e[a] && e@[b] == old_e[b]);
            } else if b == i {
                assert(e@[a] == old_e[a]);
            } else if a == i {
                let ki = card_key_view(old_e[i as int].0);
                let kb = card_key_view(old_e[b - 1].0);
                assert(e@[b] == old_e[b - 1]);
                lemma_card_key_lt_order(ki, k0, kb);
                lemma_card_key_lt_order(k0, ki, kb);
            } else if a < i {
                assert(e@[a] == old_e[a] && e@[b] == old_e[b - 1]);
            } else {
                assert(e@[a] == old_e[a - 1] && e@[b] == old_e[b - 1]);
            }
        }
    }
    i
}

pub open spec fn card_entries_view(e: Seq<((String, usize, String), Vec<Segment>)>) -> Map<(Seq<char>, nat, Seq<char>), Seq<SpecSegment>> {
    Map::new(
        |key: (Seq<char>, nat, Seq<char>)| exists|i: int| 0 <= i < e.len() && #[trigger] card_key_view(e[i].0) == key,
        |key: (Seq<char>, nat, Seq<char>)| {
            let i = choose|i: int| 0 <= i < e.len() && #[trigger] card_key_view(e[i].0) == key;
            segments_view(e[i].1@)
        },
    )
}

proof fn lemma_card_entry(e: Seq<((String, usize, String), Vec<Segment>)>, i: int)
    requires
        distinct_card_keys(e),
        0 <= i < e.len(),
    ensures
        card_entries_view(e).contains_key(card_key_view(e[i].0)),
        card_entries_view(e)[card_key_view(e[i].0)] == segments_view(e[i].1@),
{
    let key = card_key_view(e[i].0);
    assert(card_entries_view(e).contains_key(key));
    let j = choose|j: int| 0 <= j < e.len() && #[trigger] card_key_view(e[j].0) == key;
    if j != i {
        if j < i {
            assert(card_key_view(e[j].0) != card_key_view(e[i].0));
        } else {
            assert(card_key_view(e[i].0) != card_key_view(e[j].0));
        }
    }
}

impl View for CardMap {
    type V = Map<(Seq<char>, nat, Seq<char>), Seq<SpecSegment>>;

    closed spec fn view(&self) -> Self::V {
        card_entries_view(self.entries@)
    }
}

impl CardMap {
    #[verifier::type_invariant]
    closed spec fn wf(&self) -> bool {
        &&& distinct_card_keys(self.entries@)
        &&& sorted_card_keys(self.entries@)
    }

    /// The key of the `i`-th card.
    pub closed spec fn key_at(&self, i: int) -> (Seq<char>, nat, Seq<char>) {
        card_key_view(self.entries@[i].0)
    }

    pub closed spec fn count(&self) -> nat {
        self.entries@.len()
    }

    /// The number of cards.  The keys are `key_at(0)`, ..., `key_at(n - 1)`,
    /// each once.
    pub fn len(&self) -> (n: usize)
        ensures
            n == self.count(),
            forall|key: (Seq<char>, nat, Seq<char>)| #[trigger] self@.contains_key(key)
                <==> exists|i: int| 0 <= i < n && #[trigger] self.key_at(i) == key,
            forall|i: int, j: int| 0 <= i < j < n ==> #[trigger] self.key_at(i) != #[trigger] self.key_at(j),
            forall|i: int, j: int| 0 <= i < j < n ==> card_key_lt(#[trigger] self.key_at(i), #[trigger] self.key_at(j)),
    {
        proof {
            use_type_invariant(self);
            assert forall|key: (Seq<char>, nat, Seq<char>)| #[trigger] self@.contains_key(key)
                <==> exists|i: int| 0 <= i < self.entries@.len() && #[trigger] self.key_at(i) == key by {
                if self@.contains_key(key) {
                    let i = choose|i: int| 0 <= i < self.entries@.len() && #[trigger] card_key_view(self.entries@[i].0) == key;
                    assert(self.key_at(i) == key);
                }
                if exists|i: int| 0 <= i < self.entries@.len() && #[trigger] self.key_at(i) == key {
                    let i = choose|i: int| 0 <= i < self.entries@.len() && #[trigger] self.key_at(i) == key;
                    assert(card_key_view(self.entries@[i].0) == key);
                }
            }
        }
        self.entries.len()
    }

    /// The `i`-th card: its rem, location and group, and its segments.
    pub fn entry(&self, i: usize) -> (e: (&(String, usize, String), &Vec<Segment>))
        requires
            i < self.count(),
        ensures
            card_key_view(*e.0) == self.key_at(i as int),
            self@.contains_key(card_key_view(*e.0)),
            segments_view(e.1@) == self@[card_key_view(*e.0)],
    {
        proof {
            use_type_invariant(self);
            lemma_card_entry(self.entries@, i as int);
        }
        (&self.entries[i].0, &self.entries[i].1)
    }
}

impl CardMap {
    /// The segments of the card of rem `id` for the closures at `location` in `group`.
    pub fn get(&self, id: &str, location: usize, group: &str) -> (card: Option<&Vec<Segment>>)
        ensures
            match card {
                Some(segs) => self@.contains_key((id@, location as nat, group@)) && segments_view(segs@)
                    == self@[(id@, location as nat, group@)],
                None => !self@.contains_key((id@, location as nat, group@)),
            },
    {
        proof {
            use_type_invariant(self);
        }
        let id = String::from_str(id);
        let group = String::from_str(group);
        let found = find_card(&self.entries, &id, location, &group);
        match found {
            Some(i) => {
                proof {
                    lemma_card_entry(self.entries@, i as int);
                }
                Some(&self.entries[i].1)
            },
            None => None,
        }
    }
}

/// Where the card of `id`, `location` and `group` stands among `e`, if it does.
fn find_card(e: &Vec<((String, usize, String), Vec<Segment>)>, id: &String, location: usize, group: &String) -> (found: Option<usize>)
    ensures
        match found {
            Some(i) => i < e@.len() && card_key_view(e@[i as int].0) == (id@, location as nat, group@),
            None => forall|i: int| 0 <= i < e@.len() ==> #[trigger] card_key_view(e@[i].0) != (id@, location as nat, group@),
        },
{
    let mut i: usize = 0;
    while i < e.len()
        invariant
            0 <= i <= e@.len(),
            forall|j: int| 0 <= j < i ==> #[trigger] card_key_view(e@[j].0) != (id@, location as nat, group@),
        decreases e@.len() - i,
    {
        let key = &e[i].0;
        if key.1 == location && key.0 == *id && key.2 == *group {
            return Some(i);
        }
        i = i + 1;
    }
    None
}

/// The card of the closures at `location` in `group` among `contents`.
fn card_for(contents: &Vec<Content>, location: usize, group: &String) -> (segs: Vec<Segment>)
    ensures
        segments_view(segs@) == card_segments(contents_view(contents@), location as nat, group@),
{
    let mut segs: Vec<Segment> = Vec::new();
    let mut i: usize = 0;
    while i < contents.len()
        invariant
            0 <= i <= contents@.len(),
            segments_view(segs@) == card_segments(contents_view(contents@).take(i as int), location as nat, group@),
        decreases contents@.len() - i,
    {
        let ghost c = contents@[i as int]@;
        let seg = match contents[i].closure() {
            Ok((l, g, text)) => if l == location && g == *group {
                Segment::Hidden(text)
            } else {
                Segment::Visible(text)
            },
            Err(text) => Segment::Visible(text),
        };
        proof {
            assert(contents_view(contents@)[i as int] == c);
            assert(seg@ == segment_of(c, location as nat, group@));
        }
        let ghost before = segments_view(segs@);
        segs.push(seg);
        proof {
            assert(segments_view(segs@) =~= before.push(seg@));
            assert(card_segments(contents_view(contents@).take(i + 1), location as nat, group@)
                =~= card_segments(contents_view(contents@).take(i as int), location as nat, group@).push(seg@));
        }
        i = i + 1;
    }
    proof {
        assert(contents_view(contents@).take(i as int) =~= contents_view(contents@));
    }
    segs
}

proof fn lemma_has_closure_step(cs: Seq<SpecContent>, j: int, location: nat, group: Seq<char>)
    requires
        0 <= j < cs.len(),
    ensures
        has_closure(cs.take(j + 1), location, group) <==> has_closure(cs.take(j), location, group)
            || is_closure_of(cs[j], location, group),
{
    let a = cs.take(j + 1);
    let b = cs.take(j);
    if has_closure(a, location, group) {
        let i = choose|i: int| 0 <= i < a.len() && #[trigger] is_closure_of(a[i], location, group);
        if i < j {
            assert(b[i] == a[i]);
        }
    }
    if has_closure(b, location, group) {
        let i = choose|i: int| 0 <= i < b.len() && #[trigger] is_closure_of(b[i], location, group);
        assert(a[i] == b[i]);
    }
    if is_closure_of(cs[j], location, group) {
        assert(a[j] == cs[j]);
    }
}

/// Which cards a map holds after the first `i` keys of `cm`, and `j` contents of the next.
pub open spec fn cards_so_far(cm: ListMap<Content>, i: int, j: int, key: (Seq<char>, nat, Seq<char>)) -> bool {
    ||| exists|ii: int| 0 <= ii < i && #[trigger] cm.key_at(ii) == key.0 && has_closure(gathered(cm, key.0), key.1, key.2)
    ||| (i < cm.count() && key.0 == cm.key_at(i) && has_closure(gathered(cm, key.0).take(j), key.1, key.2))
}

impl Document {
    /// The cards of the document: for each rem, and each location and group of
    /// the closures it gathers, what it gathers with that closure hidden.
    pub fn serialize(&self) -> (cards: CardMap)
        requires
            resolvable_rems(self@, 0),
        ensures
            cards@ == cards_of(self@),
    {
        let cm = self.content_map();
        let n = cm.len();
        let mut e: Vec<((String, usize, String), Vec<Segment>)> = Vec::new();
        let mut i: usize = 0;
        while i < n
            invariant
                0 <= i <= n,
                n == cm.count(),
                distinct_card_keys(e@),
                sorted_card_keys(e@),
                forall|x: int| 0 <= x < e@.len() ==> #[trigger] segments_view(e@[x].1@) == card_segments(
                    gathered(cm, e@[x].0.0@),
                    e@[x].0.1 as nat,
                    e@[x].0.2@,
                ),
                forall|key: (Seq<char>, nat, Seq<char>)| (exists|x: int| 0 <= x < e@.len() && #[trigger] card_key_view(e@[x].0) == key)
                    <==> #[trigger] cards_so_far(cm, i as int, 0, key),
            decreases n - i,
        {
            let (id, contents) = cm.entry(i);
            let mut j: usize = 0;
            while j < contents.len()
                invariant
                    0 <= j <= contents@.len(),
                    i < n,
                    n == cm.count(),
                    id@ == cm.key_at(i as int),
                    contents_view(contents@) == gathered(cm, id@),
                    distinct_card_keys(e@),
                    sorted_card_keys(e@),
                    forall|x: int| 0 <= x < e@.len() ==> #[trigger] segments_view(e@[x].1@) == card_segments(
                        gathered(cm, e@[x].0.0@),
                        e@[x].0.1 as nat,
                        e@[x].0.2@,
                    ),
                    forall|key: (Seq<char>, nat, Seq<char>)| (exists|x: int| 0 <= x < e@.len() && #[trigger] card_key_view(e@[x].0) == key)
                        <==> #[trigger] cards_so_far(cm, i as int, j as int, key),
                decreases contents@.len() - j,
            {
                let ghost cs = contents_view(contents@);
                let ghost c = cs[j as int];
                let ghost before = e@;
                proof {
                    assert(contents@[j as int]@ == c);
                }
                match contents[j].closure() {
                    Ok((l, g, _)) => {
                        let found = find_card(&e, id, l, &g);
                        let ghost new_key = (id@, l as nat, g@);
                        let ghost mut p_at: int = 0;
                        if found.is_none() {
                            let segs = card_for(contents, l, &g);
                            let item = ((id.clone(), l, g), segs);
                            let ghost item_view = item;
                            let p = insert_card(&mut e, item);
                            proof {
                                p_at = p as int;
                                assert(e@[p as int] == item_view);
                                assert(item_view.0.0@ == id@);
                                assert(card_key_view(e@[p as int].0) == new_key);
                                lemma_sorted_distinct(e@);
                                assert forall|x: int| 0 <= x < e@.len() implies #[trigger] segments_view(e@[x].1@) == card_segments(
                                    gathered(cm, e@[x].0.0@),
                                    e@[x].0.1 as nat,
                                    e@[x].0.2@,
                                ) by {
                                    if x < p {
                                        assert(e@[x] == before[x]);
                                        assert(segments_view(before[x].1@) == card_segments(gathered(cm, before[x].0.0@), before[x].0.1 as nat, before[x].0.2@));
                                    } else if x > p {
                                        assert(e@[x] == before[x - 1]);
                                        assert(segments_view(before[x - 1].1@) == card_segments(gathered(cm, before[x - 1].0.0@), before[x - 1].0.1 as nat, before[x - 1].0.2@));
                                    } else {
                                        assert(e@[x] == item_view);
                                        assert(segments_view(item_view.1@) == card_segments(contents_view(contents@), l as nat, item_view.0.2@));
                                    }
                                }
                            }
                        }
                        proof {
                            assert forall|key: (Seq<char>, nat, Seq<char>)| (exists|x: int| 0 <= x < e@.len() && #[trigger] card_key_view(e@[x].0) == key)
                                <==> #[trigger] cards_so_far(cm, i as int, j + 1, key) by {
                                lemma_has_closure_step(cs, j as int, key.1, key.2);
                                assert(is_closure_of(c, key.1, key.2) <==> (key.1 == l as nat && key.2 == g@));
                                assert(cards_so_far(cm, i as int, j + 1, key) <==> cards_so_far(cm, i as int, j as int, key) || key == new_key);
                                if found.is_none() {
                                    if key == new_key {
                                        assert(card_key_view(e@[p_at].0) == key);
                                    }
                                    if exists|x: int| 0 <= x < e@.len() && #[trigger] card_key_view(e@[x].0) == key {
                                        let x = choose|x: int| 0 <= x < e@.len() && #[trigger] card_key_view(e@[x].0) == key;
                                        if x < p_at {
                                            assert(card_key_view(before[x].0) == key);
                                        } else if x > p_at {
                                            assert(card_key_view(before[x - 1].0) == key);
                                        }
                                    }
                                    if cards_so_far(cm, i as int, j as int, key) {
                                        let x = choose|x: int| 0 <= x < before.len() && #[trigger] card_key_view(before[x].0) == key;
                                        if x < p_at {
                                            assert(card_key_view(e@[x].0) == key);
                                        } else {
                                            assert(card_key_view(e@[x + 1].0) == key);
                                        }
                                    }
                                } else {
                                    let x = found.unwrap();
                                    if key == new_key {
                                        assert(card_key_view(e@[x as int].0) == key);
                                    }
                                }
                            }
                        }
                    },
                    Err(_) => {
                        proof {
                            assert forall|key: (Seq<char>, nat, Seq<char>)| (exists|x: int| 0 <= x < e@.len() && #[trigger] card_key_view(e@[x].0) == key)
                                <==> #[trigger] cards_so_far(cm, i as int, j + 1, key) by {
                                lemma_has_closure_step(cs, j as int, key.1, key.2);
                                assert(cards_so_far(cm, i as int, j + 1, key) <==> cards_so_far(cm, i as int, j as int, key));
                            }
                        }
                    },
                }
                proof {
                    assert forall|x: int| 0 <= x < e@.len() implies #[trigger] segments_view(e@[x].1@) == card_segments(
                        gathered(cm, e@[x].0.0@),
                        e@[x].0.1 as nat,
                        e@[x].0.2@,
                    ) by {
                        if e@ == before {
                            assert(segments_view(before[x].1@) == card_segments(gathered(cm, before[x].0.0@), before[x].0.1 as nat, before[x].0.2@));
                        }
                    }
                }
                j = j + 1;
            }
            proof {
                assert(contents_view(contents@).take(j as int) =~= gathered(cm, id@));
                assert forall|key: (Seq<char>, nat, Seq<char>)| (exists|x: int| 0 <= x < e@.len() && #[trigger] card_key_view(e@[x].0) == key)
                    <==> #[trigger] cards_so_far(cm, i + 1, 0, key) by {
                    assert((exists|x: int| 0 <= x < e@.len() && #[trigger] card_key_view(e@[x].0) == key) <==> cards_so_far(cm, i as int, j as int, key));
                    assert(gathered(cm, key.0).take(0) =~= Seq::<SpecContent>::empty());
                    if key.0 == cm.key_at(i as int) && has_closure(gathered(cm, key.0), key.1, key.2) {
                        assert(cm.key_at(i as int) == key.0);
                    }
                    if exists|ii: int| 0 <= ii < i + 1 && #[trigger] cm.key_at(ii) == key.0 && has_closure(gathered(cm, key.0), key.1, key.2) {
                        let ii = choose|ii: int| 0 <= ii < i + 1 && #[trigger] cm.key_at(ii) == key.0 && has_closure(gathered(cm, key.0), key.1, key.2);
                        if ii < i {
                            assert(cm.key_at(ii) == key.0);
                        }
                    }
                }
            }
            i = i + 1;
        }
        proof {
            let doc = self@;
            assert forall|key: (Seq<char>, nat, Seq<char>)| #[trigger] card_entries_view(e@).contains_key(key)
                <==> cards_of(doc).contains_key(key) by {
                assert(gathered(cm, key.0) == content_map_of(doc, key.0));
                assert(cards_so_far(cm, n as int, 0, key) <==> has_closure(gathered(cm, key.0), key.1, key.2)) by {
                    if has_closure(gathered(cm, key.0), key.1, key.2) {
                        assert(cm.lookup(key.0).len() > 0);
                        let ii = choose|ii: int| 0 <= ii < cm.count() && #[trigger] cm.key_at(ii) == key.0;
                        assert(cm.key_at(ii) == key.0);
                    }
                }
            }
            assert forall|key: (Seq<char>, nat, Seq<char>)| #[trigger] card_entries_view(e@).contains_key(key)
                implies card_entries_view(e@)[key] == cards_of(doc)[key] by {
                let x = choose|x: int| 0 <= x < e@.len() && #[trigger] card_key_view(e@[x].0) == key;
                assert(gathered(cm, key.0) == content_map_of(doc, key.0));
                assert(segments_view(e@[x].1@) == card_segments(gathered(cm, e@[x].0.0@), e@[x].0.1 as nat, e@[x].0.2@));
            }
            assert(card_entries_view(e@) =~= cards_of(doc));
        }
        CardMap { entries: e }
    }
}

} // verus!
