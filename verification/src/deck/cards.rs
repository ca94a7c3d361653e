//! Which cards a rem contributes to, and with what.
use vstd::prelude::*;
use crate::deck::document::{Content, Rem, ResolvedContent, ResolvedRem, fits, is_rpath, rcontents_view, rrem_at, rrems_view, strings_view};
use crate::deck::deck_of;
use crate::deck::Cards;
use vstd::string::StringExecFns;

verus! {

/// The ids of `r` and of all the rems nested in it, in document order.
pub open spec fn descendants(r: ResolvedRem) -> Seq<Seq<char>>
    decreases r,
{
    seq![r.id] + descendants_of(r.children)
}

pub open spec fn descendants_of(rs: Seq<ResolvedRem>) -> Seq<Seq<char>>
    decreases rs,
{
    if rs.len() == 0 {
        seq![]
    } else {
        descendants(rs[0]) + descendants_of(rs.drop_first())
    }
}

proof fn lemma_descendants_of_snoc(rs: Seq<ResolvedRem>, r: ResolvedRem)
    ensures
        descendants_of(rs.push(r)) == descendants_of(rs) + descendants(r),
    decreases rs.len(),
{
    if rs.len() == 0 {
        assert(rs.push(r).drop_first() =~= Seq::<ResolvedRem>::empty());
        assert(descendants_of(Seq::<ResolvedRem>::empty()) == Seq::<Seq<char>>::empty());
        assert(descendants(r) + Seq::<Seq<char>>::empty() =~= descendants(r));
        assert(Seq::<Seq<char>>::empty() + descendants(r) =~= descendants(r));
    } else {
        assert(rs.push(r).drop_first() =~= rs.drop_first().push(r));
        lemma_descendants_of_snoc(rs.drop_first(), r);
        assert(descendants(rs[0]) + (descendants_of(rs.drop_first()) + descendants(r)) =~= (
        descendants(rs[0]) + descendants_of(rs.drop_first())) + descendants(r));
    }
}

impl Rem {
    /// The ids of this rem and of every rem nested in it, in document order.
    pub fn descendants(&self) -> (ids: Vec<String>)
        ensures
            strings_view(ids@) == descendants(self@),
    {
        let mut ids: Vec<String> = Vec::new();
        self.add_descendants(&mut ids);
        proof {
            assert(strings_view(ids@) =~= Seq::<Seq<char>>::empty() + descendants(self@));
        }
        ids
    }

    fn add_descendants(&self, ids: &mut Vec<String>)
        ensures
            strings_view(final(ids)@) == strings_view(old(ids)@) + descendants(self@),
        decreases self@,
    {
        let ghost start = strings_view(ids@);
        ids.push(self.id());
        proof {
            assert(strings_view(ids@) =~= start + seq![self@.id]);
        }
        let children = self.children();
        let mut i: usize = 0;
        while i < children.len()
            invariant
                0 <= i <= children@.len(),
                rrems_view(children@) == self@.children,
                strings_view(ids@) == start + seq![self@.id] + descendants_of(
                    self@.children.take(i as int),
                ),
            decreases children@.len() - i,
        {
            proof {
                assert(children@[i as int]@ == self@.children[i as int]);
                assert(decreases_to!(self@ => self@.children[i as int]));
            }
            let ghost before = strings_view(ids@);
            children[i].add_descendants(ids);
            proof {
                lemma_descendants_of_snoc(self@.children.take(i as int), self@.children[i as int]);
                assert(self@.children.take(i + 1) =~= self@.children.take(i as int).push(
                    self@.children[i as int],
                ));
                assert(strings_view(ids@) =~= start + seq![self@.id] + descendants_of(
                    self@.children.take(i + 1),
                ));
            }
            i = i + 1;
        }
        proof {
            assert(self@.children.take(i as int) =~= self@.children);
            assert(start + seq![self@.id] + descendants_of(self@.children) =~= start
                + descendants(self@));
        }
    }
}


// ------------------------------------------------------------------------
// The contents gathered for each card while a rem is read
// ------------------------------------------------------------------------

/// Lists of contents, one for each card id.
struct ContentLists {
    entries: Vec<(String, Vec<Content>)>,
}

impl ContentLists {
    spec fn wf(&self) -> bool {
        &&& forall|i: int, j: int|
            0 <= i < j < self.entries@.len() ==> #[trigger] self.entries@[i].0@
                != #[trigger] self.entries@[j].0@
        &&& forall|i: int|
            0 <= i < self.entries@.len() ==> #[trigger] self.entries@[i].1@.len() > 0
    }

    spec fn has(&self, k: Seq<char>) -> bool {
        exists|i: int| 0 <= i < self.entries@.len() && #[trigger] self.entries@[i].0@ == k
    }

    /// The contents gathered for card `k`, empty if there are none.
    spec fn lookup(&self, k: Seq<char>) -> Seq<ResolvedContent> {
        if self.has(k) {
            let i = choose|i: int| 0 <= i < self.entries@.len() && #[trigger] self.entries@[i].0@ == k;
            rcontents_view(self.entries@[i].1@)
        } else {
            seq![]
        }
    }

    proof fn lemma_lookup_at(&self, i: int)
        requires
            self.wf(),
            0 <= i < self.entries@.len(),
        ensures
            self.lookup(self.entries@[i].0@) == rcontents_view(self.entries@[i].1@),
    {
        let k = self.entries@[i].0@;
        assert(self.has(k));
        let j = choose|j: int| 0 <= j < self.entries@.len() && #[trigger] self.entries@[j].0@ == k;
        if j != i {
            if j < i {
                assert(self.entries@[j].0@ != self.entries@[i].0@);
            } else {
                assert(self.entries@[i].0@ != self.entries@[j].0@);
            }
        }
    }

    proof fn lemma_lookup_nonempty(&self, k: Seq<char>)
        requires
            self.wf(),
        ensures
            self.has(k) <==> self.lookup(k).len() > 0,
    {
        if self.has(k) {
            let j = choose|j: int| 0 <= j < self.entries@.len() && #[trigger] self.entries@[j].0@ == k;
            self.lemma_lookup_at(j);
            assert(rcontents_view(self.entries@[j].1@).len() == self.entries@[j].1@.len());
        }
    }

    fn new() -> (m: ContentLists)
        ensures
            m.wf(),
            forall|k: Seq<char>| #[trigger] m.lookup(k) == Seq::<ResolvedContent>::empty(),
    {
        ContentLists { entries: Vec::new() }
    }

    /// Appends `c` to the list of card `key`.
    fn extend_at(&mut self, key: String, c: Content)
        requires
            old(self).wf(),
        ensures
            final(self).wf(),
            forall|k: Seq<char>| #[trigger] final(self).lookup(k) == if k == key@ {
                old(self).lookup(k).push(c@)
            } else {
                old(self).lookup(k)
            },
    {
        let mut i: usize = 0;
        while i < self.entries.len() && self.entries[i].0 != key
            invariant
                0 <= i <= self.entries@.len(),
                self.entries@ == old(self).entries@,
                forall|j: int| 0 <= j < i ==> #[trigger] self.entries@[j].0@ != key@,
            decreases self.entries@.len() - i,
        {
            i = i + 1;
        }
        let ghost old_entries = self.entries@;
        if i < self.entries.len() {
            let ghost cv = c@;
            let ghost list = rcontents_view(self.entries@[i as int].1@);
            proof {
                assert(self.entries@[i as int].0@ == key@);
                old(self).lemma_lookup_at(i as int);
            }
            let (k0, mut list_vec) = self.entries.remove(i);
            list_vec.push(c);
            proof {
                assert(rcontents_view(list_vec@) =~= list.push(cv));
            }
            self.entries.insert(i, (k0, list_vec));
            proof {
                assert(self.entries@ =~= old_entries.update(i as int, (old_entries[i as int].0, list_vec)));
                assert(self.wf());
                assert forall|k: Seq<char>| #[trigger] self.lookup(k) == if k == key@ {
                    old(self).lookup(k).push(cv)
                } else {
                    old(self).lookup(k)
                } by {
                    if k == key@ {
                        self.lemma_lookup_at(i as int);
                    } else {
                        if self.has(k) {
                            let j = choose|j: int| 0 <= j < self.entries@.len() && #[trigger] self.entries@[j].0@ == k;
                            self.lemma_lookup_at(j);
                            old(self).lemma_lookup_at(j);
                        } else {
                            if old(self).has(k) {
                                let j = choose|j: int| 0 <= j < old(self).entries@.len() && #[trigger] old(self).entries@[j].0@ == k;
                                assert(self.entries@[j].0@ == k);
                            }
                        }
                    }
                }
            }
        } else {
            let ghost cv = c@;
            let mut list_vec: Vec<Content> = Vec::new();
            list_vec.push(c);
            proof {
                assert(rcontents_view(list_vec@) =~= seq![cv]);
                assert(!old(self).has(key@));
            }
            self.entries.push((key, list_vec));
            proof {
                let n = old_entries.len() as int;
                assert(self.wf());
                assert forall|k: Seq<char>| #[trigger] self.lookup(k) == if k == self.entries@[n].0@ {
                    old(self).lookup(k).push(cv)
                } else {
                    old(self).lookup(k)
                } by {
                    if k == self.entries@[n].0@ {
                        self.lemma_lookup_at(n);
                        assert(Seq::<ResolvedContent>::empty().push(cv) =~= seq![cv]);
                    } else {
                        if self.has(k) {
                            let j = choose|j: int| 0 <= j < self.entries@.len() && #[trigger] self.entries@[j].0@ == k;
                            self.lemma_lookup_at(j);
                            old(self).lemma_lookup_at(j);
                        } else {
                            if old(self).has(k) {
                                let j = choose|j: int| 0 <= j < old(self).entries@.len() && #[trigger] old(self).entries@[j].0@ == k;
                                assert(self.entries@[j].0@ == k);
                            }
                        }
                    }
                }
            }
        }
    }
}


// ------------------------------------------------------------------------
// What a rem contributes to each card
// ------------------------------------------------------------------------

/// The text put after a hidden closure that is not the rem's last content.
pub open spec fn ellipsis() -> Seq<char> {
    seq![' ', '.', '.', '.', ' ']
}

/// How many times `k` occurs in `ids`.
pub open spec fn count_of(ids: Seq<Seq<char>>, k: Seq<char>) -> nat
    decreases ids.len(),
{
    if ids.len() == 0 {
        0
    } else {
        count_of(ids.drop_last(), k) + if ids.last() == k {
            1nat
        } else {
            0nat
        }
    }
}

pub open spec fn repeat(c: ResolvedContent, n: nat) -> Seq<ResolvedContent> {
    Seq::new(n, |_i: int| c)
}

/// Content `i` of `r` shown on the card of another rem that it belongs to: the
/// closure itself, and an ellipsis unless it is the last content.
pub open spec fn hidden_part(r: ResolvedRem, k: Seq<char>, i: int) -> Seq<ResolvedContent> {
    match r.content[i] {
        ResolvedContent::Closure(id, _, _) => if id != r.id && id == k {
            seq![r.content[i]] + if i + 1 < r.content.len() {
                seq![ResolvedContent::Text(ellipsis())]
            } else {
                seq![]
            }
        } else {
            seq![]
        },
        ResolvedContent::Text(_) => seq![],
    }
}

/// Content `i` of `r`, once for each time `k` is `r` or nested in it.
pub open spec fn shown_part(r: ResolvedRem, k: Seq<char>, i: int) -> Seq<ResolvedContent> {
    repeat(r.content[i], count_of(descendants(r), k))
}

/// What the first `n` contents of `r` put on card `k`.
pub open spec fn card_text(r: ResolvedRem, k: Seq<char>, n: nat) -> Seq<ResolvedContent>
    decreases n,
{
    if n == 0 {
        seq![]
    } else {
        card_text(r, k, (n - 1) as nat) + hidden_part(r, k, n - 1) + shown_part(r, k, n - 1)
    }
}

/// The rem `r`, at `depth`, contributes one entry to card `k` if it has anything for it.
pub open spec fn rem_entry(r: ResolvedRem, depth: nat, k: Seq<char>) -> Seq<
    (nat, Seq<ResolvedContent>),
> {
    let text = card_text(r, k, r.content.len());
    if text.len() > 0 {
        seq![(depth, text)]
    } else {
        seq![]
    }
}

/// What the rems `rs`, at `depth`, and all rems nested in them contribute to card
/// `k`, in document order.
pub open spec fn cards_for(rs: Seq<ResolvedRem>, depth: nat, k: Seq<char>) -> Seq<
    (nat, Seq<ResolvedContent>),
>
    decreases rs,
{
    if rs.len() == 0 {
        seq![]
    } else {
        rem_entry(rs[0], depth, k) + cards_for(rs[0].children, depth + 1, k) + cards_for(
            rs.drop_first(),
            depth,
            k,
        )
    }
}

pub proof fn lemma_cards_for_snoc(rs: Seq<ResolvedRem>, r: ResolvedRem, depth: nat, k: Seq<char>)
    ensures
        cards_for(rs.push(r), depth, k) == cards_for(rs, depth, k) + cards_for(seq![r], depth, k),
    decreases rs.len(),
{
    let one = seq![r];
    assert(one.drop_first() =~= Seq::<ResolvedRem>::empty());
    if rs.len() == 0 {
        assert(rs.push(r) =~= one);
        assert(cards_for(rs, depth, k) =~= Seq::<(nat, Seq<ResolvedContent>)>::empty());
        assert(Seq::<(nat, Seq<ResolvedContent>)>::empty() + cards_for(one, depth, k) =~= cards_for(one, depth, k));
    } else {
        assert(rs.push(r).drop_first() =~= rs.drop_first().push(r));
        assert(rs.push(r)[0] == rs[0]);
        lemma_cards_for_snoc(rs.drop_first(), r, depth, k);
        let a = rem_entry(rs[0], depth, k) + cards_for(rs[0].children, depth + 1, k);
        assert(a + (cards_for(rs.drop_first(), depth, k) + cards_for(one, depth, k)) =~= (a
            + cards_for(rs.drop_first(), depth, k)) + cards_for(one, depth, k));
    }
}

proof fn lemma_count_of_snoc(ids: Seq<Seq<char>>, x: Seq<char>, k: Seq<char>)
    ensures
        count_of(ids.push(x), k) == count_of(ids, k) + if x == k {
            1nat
        } else {
            0nat
        },
{
    assert(ids.push(x).drop_last() =~= ids);
}

/// How many levels of nesting the rems `rs` span: none for no rems, and
/// otherwise one more than the deepest of their children span.
pub open spec fn levels(rs: Seq<ResolvedRem>) -> nat
    decreases rs,
{
    if rs.len() == 0 {
        0
    } else {
        let first = 1 + levels(rs[0].children);
        let rest = levels(rs.drop_first());
        if first >= rest {
            first
        } else {
            rest
        }
    }
}

/// What the rems `rs`, at `depth`, put on a card is never empty, and comes from
/// a rem at `depth` or nested below it, fewer than `levels(rs)` levels down.
pub proof fn lemma_cards_for_entries(rs: Seq<ResolvedRem>, depth: nat, k: Seq<char>)
    ensures
        forall|i: int| 0 <= i < cards_for(rs, depth, k).len() ==> (#[trigger] cards_for(rs, depth, k)[i]).1.len() > 0
            && depth <= cards_for(rs, depth, k)[i].0 < depth + levels(rs),
    decreases rs,
{
    if rs.len() > 0 {
        lemma_cards_for_entries(rs[0].children, depth + 1, k);
        lemma_cards_for_entries(rs.drop_first(), depth, k);
        let a = rem_entry(rs[0], depth, k);
        let b = cards_for(rs[0].children, depth + 1, k);
        let c = cards_for(rs.drop_first(), depth, k);
        let all = cards_for(rs, depth, k);
        assert(all == a + b + c);
        assert forall|i: int| 0 <= i < all.len() implies (#[trigger] all[i]).1.len() > 0 && depth <= all[i].0 < depth + levels(rs) by {
            if i < a.len() {
                assert(all[i] == a[i]);
            } else if i < a.len() + b.len() {
                assert(all[i] == b[i - a.len()]);
            } else {
                assert(all[i] == c[i - a.len() - b.len()]);
            }
        }
    }
}

proof fn lemma_descendants_of_has(rs: Seq<ResolvedRem>, i: int, x: Seq<char>)
    requires
        0 <= i < rs.len(),
        descendants(rs[i]).contains(x),
    ensures
        descendants_of(rs).contains(x),
    decreases i,
{
    let all = descendants_of(rs);
    let first = descendants(rs[0]);
    if i == 0 {
        let m = choose|m: int| 0 <= m < first.len() && first[m] == x;
        assert(all[m] == x);
    } else {
        assert(rs.drop_first()[i - 1] == rs[i]);
        lemma_descendants_of_has(rs.drop_first(), i - 1, x);
        let rest = descendants_of(rs.drop_first());
        let m = choose|m: int| 0 <= m < rest.len() && rest[m] == x;
        assert(all[first.len() + m] == x);
    }
}

proof fn lemma_nested_in_descendants(r: ResolvedRem, q: Seq<int>)
    requires
        is_rpath(r.children, q),
    ensures
        descendants(r).contains(rrem_at(r.children, q).id),
    decreases q.len(),
{
    let c = r.children[q[0]];
    let x = rrem_at(r.children, q).id;
    if q.len() == 1 {
        assert(descendants(c)[0] == c.id);
    } else {
        lemma_nested_in_descendants(c, q.drop_first());
    }
    lemma_descendants_of_has(r.children, q[0], x);
    let d = descendants_of(r.children);
    let m = choose|m: int| 0 <= m < d.len() && d[m] == x;
    assert(descendants(r)[m + 1] == x);
}

proof fn lemma_count_of_contains(ids: Seq<Seq<char>>, k: Seq<char>)
    requires
        ids.contains(k),
    ensures
        count_of(ids, k) >= 1,
    decreases ids.len(),
{
    if ids.last() != k {
        let m = choose|m: int| 0 <= m < ids.len() && ids[m] == k;
        assert(ids.drop_last()[m] == k);
        lemma_count_of_contains(ids.drop_last(), k);
    }
}

proof fn lemma_card_text_has(r: ResolvedRem, k: Seq<char>, n: nat, i: int)
    requires
        count_of(descendants(r), k) >= 1,
        0 <= i < n <= r.content.len(),
    ensures
        card_text(r, k, n).contains(r.content[i]),
    decreases n,
{
    let before = card_text(r, k, (n - 1) as nat);
    let all = card_text(r, k, n);
    let h = hidden_part(r, k, n - 1);
    if i == n - 1 {
        assert(all[(before.len() + h.len()) as int] == r.content[i]);
    } else {
        lemma_card_text_has(r, k, (n - 1) as nat, i);
        let m = choose|m: int| 0 <= m < before.len() && before[m] == r.content[i];
        assert(all[m] == r.content[i]);
    }
}

proof fn lemma_cards_for_has(rs: Seq<ResolvedRem>, depth: nat, k: Seq<char>, i: int, x: (nat, Seq<ResolvedContent>))
    requires
        0 <= i < rs.len(),
        (rem_entry(rs[i], depth, k) + cards_for(rs[i].children, depth + 1, k)).contains(x),
    ensures
        cards_for(rs, depth, k).contains(x),
    decreases i,
{
    let all = cards_for(rs, depth, k);
    let first = rem_entry(rs[0], depth, k) + cards_for(rs[0].children, depth + 1, k);
    assert(all == first + cards_for(rs.drop_first(), depth, k));
    if i == 0 {
        let m = choose|m: int| 0 <= m < first.len() && first[m] == x;
        assert(all[m] == x);
    } else {
        assert(rs.drop_first()[i - 1] == rs[i]);
        lemma_cards_for_has(rs.drop_first(), depth, k, i - 1, x);
        let rest = cards_for(rs.drop_first(), depth, k);
        let m = choose|m: int| 0 <= m < rest.len() && rest[m] == x;
        assert(all[first.len() + m] == x);
    }
}

proof fn lemma_cards_for_at(rs: Seq<ResolvedRem>, depth: nat, p: Seq<int>, k: Seq<char>, x: (nat, Seq<ResolvedContent>))
    requires
        is_rpath(rs, p),
        rem_entry(rrem_at(rs, p), (depth + p.len() - 1) as nat, k).contains(x),
    ensures
        cards_for(rs, depth, k).contains(x),
    decreases p.len(),
{
    let r0 = rs[p[0]];
    let a = rem_entry(r0, depth, k);
    let b = cards_for(r0.children, depth + 1, k);
    if p.len() == 1 {
        let m = choose|m: int| 0 <= m < a.len() && a[m] == x;
        assert((a + b)[m] == x);
    } else {
        lemma_cards_for_at(r0.children, depth + 1, p.drop_first(), k, x);
        let m = choose|m: int| 0 <= m < b.len() && b[m] == x;
        assert((a + b)[a.len() + m] == x);
    }
    lemma_cards_for_has(rs, depth, k, p[0], x);
}

/// The id of the rem that `q` leads to among the rems nested in `r`, or the id
/// of `r` itself for an empty `q`.
pub open spec fn nested_id(r: ResolvedRem, q: Seq<int>) -> Seq<char> {
    if q.len() == 0 {
        r.id
    } else {
        rrem_at(r.children, q).id
    }
}

/// A rem's contents show on its own card and on the card of every rem nested in
/// it, at any depth: that card has an entry at the rem's depth that holds each
/// of them.
pub proof fn lemma_contents_on_nested_cards(doc: Seq<ResolvedRem>, p: Seq<int>, q: Seq<int>)
    requires
        is_rpath(doc, p),
        q.len() == 0 || is_rpath(rrem_at(doc, p).children, q),
        rrem_at(doc, p).content.len() > 0,
    ensures
        deck_of(doc).contains_key(nested_id(rrem_at(doc, p), q)),
        exists|e: (nat, Seq<ResolvedContent>)|
            #[trigger] deck_of(doc)[nested_id(rrem_at(doc, p), q)].contains(e) && e.0 == p.len() - 1 && forall|i: int|
                0 <= i < rrem_at(doc, p).content.len() ==> e.1.contains(rrem_at(doc, p).content[i]),
{
    let r = rrem_at(doc, p);
    let k = if q.len() == 0 {
        r.id
    } else {
        rrem_at(r.children, q).id
    };
    if q.len() == 0 {
        assert(descendants(r)[0] == r.id);
    } else {
        lemma_nested_in_descendants(r, q);
    }
    lemma_count_of_contains(descendants(r), k);
    let n = r.content.len();
    let text = card_text(r, k, n);
    assert forall|i: int| 0 <= i < n implies text.contains(r.content[i]) by {
        lemma_card_text_has(r, k, n, i);
    }
    assert(text.len() > 0) by {
        lemma_card_text_has(r, k, n, 0);
    }
    let d = (p.len() - 1) as nat;
    let e = (d, text);
    assert(rem_entry(r, d, k) == seq![e]);
    assert(rem_entry(r, d, k)[0] == e);
    lemma_cards_for_at(doc, 0, p, k, e);
    let cs = cards_for(doc, 0, k);
    assert(cs.len() > 0);
    assert(k == nested_id(r, q));
    assert(deck_of(doc).contains_key(k));
    assert(deck_of(doc)[k] == cs);
    assert(deck_of(doc)[k].contains(e));
    assert(e.0 == p.len() - 1);
}

proof fn lemma_card_text_block(r: ResolvedRem, k: Seq<char>, n: nat, j: int)
    requires
        0 <= j < n <= r.content.len(),
    ensures
        exists|m: int|
            0 <= m && m + hidden_part(r, k, j).len() <= card_text(r, k, n).len() && #[trigger] card_text(r, k, n).subrange(
                m,
                m + hidden_part(r, k, j).len(),
            ) == hidden_part(r, k, j),
    decreases n,
{
    let before = card_text(r, k, (n - 1) as nat);
    let all = card_text(r, k, n);
    let h = hidden_part(r, k, j);
    if j == n - 1 {
        let m = before.len() as int;
        assert(all.subrange(m, m + h.len()) =~= h);
    } else {
        lemma_card_text_block(r, k, (n - 1) as nat, j);
        let m = choose|m: int|
            0 <= m && m + h.len() <= before.len() && #[trigger] before.subrange(m, m + h.len()) == h;
        assert(all.subrange(m, m + h.len()) =~= before.subrange(m, m + h.len()));
    }
}

/// A closure that belongs to another rem (an ancestor) shows on that rem's
/// card, in an entry at the depth of the rem that holds it, followed by an
/// ellipsis (the text " ... ") unless it is the last content of its rem.
pub proof fn lemma_closure_on_owner_card(doc: Seq<ResolvedRem>, p: Seq<int>, j: int)
    requires
        is_rpath(doc, p),
        0 <= j < rrem_at(doc, p).content.len(),
        rrem_at(doc, p).content[j] is Closure,
        rrem_at(doc, p).content[j]->Closure_0 != rrem_at(doc, p).id,
    ensures
        deck_of(doc).contains_key(rrem_at(doc, p).content[j]->Closure_0),
        exists|e: (nat, Seq<ResolvedContent>), m: int|
            #![trigger deck_of(doc)[rrem_at(doc, p).content[j]->Closure_0].contains(e), e.1[m]]
            deck_of(doc)[rrem_at(doc, p).content[j]->Closure_0].contains(e) && e.0 == p.len() - 1 && 0 <= m
                < e.1.len() && e.1[m] == rrem_at(doc, p).content[j] && (j + 1 < rrem_at(doc, p).content.len() ==> m
                + 1 < e.1.len() && e.1[m + 1] == ResolvedContent::Text(seq![' ', '.', '.', '.', ' '])),
{
    let r = rrem_at(doc, p);
    let o = r.content[j]->Closure_0;
    let n = r.content.len();
    let text = card_text(r, o, n);
    let h = hidden_part(r, o, j);
    lemma_card_text_block(r, o, n, j);
    let m = choose|m: int| 0 <= m && m + h.len() <= text.len() && #[trigger] text.subrange(m, m + h.len()) == h;
    assert(h[0] == r.content[j]);
    assert(text[m] == text.subrange(m, m + h.len())[0]);
    if j + 1 < n {
        assert(h[1] == ResolvedContent::Text(ellipsis()));
        assert(text[m + 1] == text.subrange(m, m + h.len())[1]);
        assert(ellipsis() =~= seq![' ', '.', '.', '.', ' ']);
    }
    let d = (p.len() - 1) as nat;
    let e = (d, text);
    assert(rem_entry(r, d, o) == seq![e]);
    assert(rem_entry(r, d, o)[0] == e);
    lemma_cards_for_at(doc, 0, p, o, e);
    let cs = cards_for(doc, 0, o);
    assert(cs.len() > 0);
    assert(deck_of(doc).contains_key(o));
    assert(deck_of(doc)[o] == cs);
    assert(deck_of(doc)[o].contains(e));
    assert(e.1[m] == r.content[j]);
}

/// How many rems the map `m` holds for card `k`.
pub open spec fn rems_held(m: Map<Seq<char>, Seq<(nat, Seq<ResolvedContent>)>>, k: Seq<char>) -> int {
    if m.contains_key(k) {
        m[k].len() as int
    } else {
        0
    }
}

impl Rem {
    /// Adds what this rem, at `depth`, and the rems nested in it contribute to
    /// each card.  No card loses a rem: each keeps what it had, followed by what
    /// was added, and every added rem holds something and comes from a depth
    /// between `depth` and `depth` plus the levels this rem spans.
    pub fn insert_into(&self, cards: &mut Cards, depth: usize)
        requires
            fits(self@, depth as nat),
        ensures
            forall|k: Seq<char>| #[trigger] final(cards).lookup(k) == old(cards).lookup(k) + cards_for(
                seq![self@],
                depth as nat,
                k,
            ),
            forall|k: Seq<char>| #[trigger] old(cards)@.contains_key(k) ==> final(cards)@.contains_key(k)
                && final(cards)@[k].take(old(cards)@[k].len() as int) == old(cards)@[k],
            forall|k: Seq<char>, i: int| final(cards)@.contains_key(k) && rems_held(old(cards)@, k) <= i < final(cards)@[k].len()
                ==> (#[trigger] final(cards)@[k][i]).1.len() > 0 && depth <= final(cards)@[k][i].0 < depth + levels(seq![self@]),
        decreases self@,
    {
        let ghost r = self@;
        let ids = self.descendants();
        let my_id = self.id();
        let content = self.content();
        let n = content.len();
        let mut buffer = ContentLists::new();
        let mut i: usize = 0;
        while i < n
            invariant
                0 <= i <= n,
                n == content@.len(),
                rcontents_view(content@) == r.content,
                strings_view(ids@) == descendants(r),
                my_id@ == r.id,
                buffer.wf(),
                forall|k: Seq<char>| #[trigger] buffer.lookup(k) == card_text(r, k, i as nat),
            decreases n - i,
        {
            let c = &content[i];
            proof {
                assert(c@ == r.content[i as int]);
            }
            let ghost before = buffer;
            if let Content::Closure(group, _) = c {
                if group.0 != my_id {
                    buffer.extend_at(group.0.clone(), c.duplicate());
                    if i + 1 < n {
                        let dots = String::from_str(" ... ");
                        proof {
                            reveal_strlit(" ... ");
                            assert(dots@ == ellipsis());
                        }
                        buffer.extend_at(group.0.clone(), Content::Text(dots));
                    }
                }
            }
            proof {
                assert forall|k: Seq<char>| #[trigger] buffer.lookup(k) == card_text(r, k, i as nat)
                    + hidden_part(r, k, i as int) by {
                    if k == r.content[i as int]->Closure_0 && r.content[i as int] is Closure && k != r.id {
                        if i + 1 < n {
                            assert(card_text(r, k, i as nat) + hidden_part(r, k, i as int) =~= card_text(r, k, i as nat).push(r.content[i as int]).push(ResolvedContent::Text(ellipsis())));
                        } else {
                            assert(card_text(r, k, i as nat) + hidden_part(r, k, i as int) =~= card_text(r, k, i as nat).push(r.content[i as int]));
                        }
                    } else {
                        assert(card_text(r, k, i as nat) + hidden_part(r, k, i as int) =~= card_text(r, k, i as nat));
                    }
                }
            }
            let mut j: usize = 0;
            while j < ids.len()
                invariant
                    0 <= i < n,
                    0 <= j <= ids@.len(),
                    n == content@.len(),
                    c@ == r.content[i as int],
                    strings_view(ids@) == descendants(r),
                    buffer.wf(),
                    forall|k: Seq<char>| #[trigger] buffer.lookup(k) == card_text(r, k, i as nat)
                        + hidden_part(r, k, i as int) + repeat(c@, count_of(strings_view(ids@).take(j as int), k)),
                decreases ids@.len() - j,
            {
                let ghost before_j = buffer;
                buffer.extend_at(ids[j].clone(), c.duplicate());
                proof {
                    let idv = strings_view(ids@);
                    assert(idv.take(j + 1) =~= idv.take(j as int).push(idv[j as int]));
                    assert forall|k: Seq<char>| #[trigger] buffer.lookup(k) == card_text(r, k, i as nat)
                        + hidden_part(r, k, i as int) + repeat(c@, count_of(idv.take(j + 1), k)) by {
                        lemma_count_of_snoc(idv.take(j as int), idv[j as int], k);
                        let base = card_text(r, k, i as nat) + hidden_part(r, k, i as int);
                        if k == idv[j as int] {
                            assert(base + repeat(c@, count_of(idv.take(j + 1), k)) =~= (base + repeat(c@, count_of(idv.take(j as int), k))).push(c@));
                        } else {
                            assert(count_of(idv.take(j + 1), k) == count_of(idv.take(j as int), k));
                        }
                    }
                }
                j = j + 1;
            }
            proof {
                assert(strings_view(ids@).take(j as int) =~= descendants(r));
            }
            i = i + 1;
        }
        // hand each card's contents over to the deck
        let ghost gathered = buffer;
        let ghost start = *cards;
        let mut entries = buffer.entries;
        proof {
            assert forall|k: Seq<char>| #[trigger] gathered.lookup(k) == card_text(r, k, r.content.len()) by {
                assert(i == r.content.len());
            }
        }
        while entries.len() > 0
            invariant
                entries@.len() <= gathered.entries@.len(),
                forall|m: int| 0 <= m < entries@.len() ==> entries@[m] == gathered.entries@[m],
                gathered.wf(),
                forall|k: Seq<char>| #[trigger] gathered.lookup(k) == card_text(r, k, r.content.len()),
                forall|k: Seq<char>| #[trigger] cards.lookup(k) == start.lookup(k) + if (exists|m: int| entries@.len() <= m < gathered.entries@.len() && #[trigger] gathered.entries@[m].0@ == k) {
                    seq![(depth as nat, card_text(r, k, r.content.len()))]
                } else {
                    seq![]
                },
            decreases entries@.len(),
        {
            let ghost m = entries@.len() - 1;
            let (key, list) = entries.pop().unwrap();
            proof {
                gathered.lemma_lookup_at(m);
            }
            let ghost kv = key@;
            let ghost lv = rcontents_view(list@);
            let ghost before = *cards;
            cards.extend_at(key, (depth, list));
            proof {
                assert forall|k: Seq<char>| #[trigger] cards.lookup(k) == start.lookup(k) + if (exists|m2: int| entries@.len() <= m2 < gathered.entries@.len() && #[trigger] gathered.entries@[m2].0@ == k) {
                    seq![(depth as nat, card_text(r, k, r.content.len()))]
                } else {
                    seq![]
                } by {
                    if k == kv {
                        assert(gathered.entries@[m].0@ == k);
                        assert(!(exists|m2: int| entries@.len() + 1 <= m2 < gathered.entries@.len() && #[trigger] gathered.entries@[m2].0@ == k)) by {
                            if exists|m2: int| entries@.len() + 1 <= m2 < gathered.entries@.len() && #[trigger] gathered.entries@[m2].0@ == k {
                                let m2 = choose|m2: int| entries@.len() + 1 <= m2 < gathered.entries@.len() && #[trigger] gathered.entries@[m2].0@ == k;
                                assert(gathered.entries@[m].0@ != gathered.entries@[m2].0@);
                            }
                        }
                        assert(Seq::<(nat, Seq<ResolvedContent>)>::empty().push((depth as nat, lv)) =~= seq![(depth as nat, lv)]);
                        assert(start.lookup(k) + Seq::<(nat, Seq<ResolvedContent>)>::empty() =~= start.lookup(k));
                    } else {
                        if exists|m2: int| entries@.len() <= m2 < gathered.entries@.len() && #[trigger] gathered.entries@[m2].0@ == k {
                            let m2 = choose|m2: int| entries@.len() <= m2 < gathered.entries@.len() && #[trigger] gathered.entries@[m2].0@ == k;
                            assert(m2 != m);
                            assert(entries@.len() + 1 <= m2);
                        }
                    }
                }
            }
        }
        proof {
            assert forall|k: Seq<char>| #[trigger] cards.lookup(k) == start.lookup(k) + rem_entry(r, depth as nat, k) by {
                gathered.lemma_lookup_nonempty(k);
                if gathered.has(k) {
                    let m = choose|m: int| 0 <= m < gathered.entries@.len() && #[trigger] gathered.entries@[m].0@ == k;
                    assert(exists|m2: int| entries@.len() <= m2 < gathered.entries@.len() && #[trigger] gathered.entries@[m2].0@ == k);
                } else {
                    assert(start.lookup(k) + Seq::<(nat, Seq<ResolvedContent>)>::empty() =~= start.lookup(k));
                }
            }
        }
        // then the rems nested in this one
        let children = self.children();
        let mut c: usize = 0;
        while c < children.len()
            invariant
                0 <= c <= children@.len(),
                rrems_view(children@) == r.children,
                r == self@,
                fits(r, depth as nat),
                forall|k: Seq<char>| #[trigger] cards.lookup(k) == start.lookup(k) + rem_entry(r, depth as nat, k)
                    + cards_for(r.children.take(c as int), depth as nat + 1, k),
            decreases children@.len() - c,
        {
            proof {
                assert(children@[c as int]@ == r.children[c as int]);
                assert(decreases_to!(r => r.children[c as int]));
                assert(fits(r.children[c as int], depth as nat + 1));
            }
            let ghost before = *cards;
            children[c].insert_into(cards, depth + 1);
            proof {
                assert forall|k: Seq<char>| #[trigger] cards.lookup(k) == start.lookup(k) + rem_entry(r, depth as nat, k)
                    + cards_for(r.children.take(c + 1), depth as nat + 1, k) by {
                    assert(r.children.take(c + 1) =~= r.children.take(c as int).push(r.children[c as int]));
                    lemma_cards_for_snoc(r.children.take(c as int), r.children[c as int], depth as nat + 1, k);
                    let a = start.lookup(k) + rem_entry(r, depth as nat, k);
                    assert(a + cards_for(r.children.take(c as int), depth as nat + 1, k) + cards_for(seq![r.children[c as int]], depth as nat + 1, k)
                        =~= a + (cards_for(r.children.take(c as int), depth as nat + 1, k) + cards_for(seq![r.children[c as int]], depth as nat + 1, k)));
                }
            }
            c = c + 1;
        }
        proof {
            assert(r.children.take(c as int) =~= r.children);
            assert forall|k: Seq<char>| #[trigger] cards.lookup(k) == start.lookup(k) + cards_for(seq![r], depth as nat, k) by {
                let one = seq![r];
                assert(one.drop_first() =~= Seq::<ResolvedRem>::empty());
                assert(one[0] == r);
                let tail = cards_for(one.drop_first(), depth as nat, k);
                assert(tail =~= Seq::<(nat, Seq<ResolvedContent>)>::empty());
                assert(cards_for(one, depth as nat, k) =~= rem_entry(r, depth as nat, k) + cards_for(r.children, depth as nat + 1, k));
                assert(start.lookup(k) + rem_entry(r, depth as nat, k) + cards_for(r.children, depth as nat + 1, k) =~= start.lookup(k) + (rem_entry(r, depth as nat, k) + cards_for(r.children, depth as nat + 1, k)));
            }
            cards.lemma_lookup_view();
            start.lemma_lookup_view();
            assert forall|k: Seq<char>| #[trigger] start@.contains_key(k) implies cards@.contains_key(k)
                && cards@[k].take(start@[k].len() as int) == start@[k] by {
                assert(cards.lookup(k) == start.lookup(k) + cards_for(seq![r], depth as nat, k));
                assert(cards.lookup(k).len() > 0);
                assert(cards@[k].take(start@[k].len() as int) =~= start@[k]);
            }
            assert forall|k: Seq<char>, i: int| cards@.contains_key(k) && rems_held(start@, k) <= i < cards@[k].len()
                implies (#[trigger] cards@[k][i]).1.len() > 0 && depth <= cards@[k][i].0 < depth + levels(seq![r]) by {
                lemma_cards_for_entries(seq![r], depth as nat, k);
                assert(cards.lookup(k) == start.lookup(k) + cards_for(seq![r], depth as nat, k));
                assert(start.lookup(k).len() == rems_held(start@, k));
                assert(cards@[k][i] == cards_for(seq![r], depth as nat, k)[i - rems_held(start@, k)]);
            }
        }
    }
}

} // verus!
