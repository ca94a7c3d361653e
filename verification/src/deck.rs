pub mod cards;
pub mod document;

use vstd::prelude::*;
use crate::deck::cards::cards_for;
use crate::deck::document::{Document, ResolvedContent, ResolvedRem, rcontents_view, rrems_view, fits, resolve_rems};
use crate::document::grammar::{lemma_parse_document, parse_document};
use crate::document::parser::{self, resolvable_rems};
pub use crate::deck::document::{Content, Group};
use crate::deck::document::strings_view;
use crate::order::{lemma_seq_lt_order, seq_lt, str_lt};
use crate::workspace::{RemedyRoot, Root};
use vstd::string::StringExecFns;

verus! {

/// Where decks are kept: `decks` under the program's own directory.
pub struct DeckRoot;

impl Root for DeckRoot {
    open spec fn spec_root() -> Seq<Seq<char>> {
        RemedyRoot::spec_root().push("decks"@)
    }

    fn get_root() -> (r: Vec<String>) {
        let mut r = RemedyRoot::get_root();
        let ghost before = r@;
        r.push(String::from_str("decks"));
        proof {
            assert(strings_view(r@) =~= strings_view(before).push("decks"@));
        }
        r
    }
}

/// The rems of a card, each with the depth of the rem it comes from.
pub type Rems = Vec<(usize, Vec<Content>)>;

/// The id of a card to learn: the id of its rem, and a group of closures.
pub type CardId = (String, (String, String));

/// A card: what each rem that shows it contributes, in document order.
#[derive(Debug)]
pub struct Card {
    rems: Rems,
}

pub open spec fn card_rems_view(rs: Seq<(usize, Vec<Content>)>) -> Seq<(nat, Seq<ResolvedContent>)> {
    Seq::new(rs.len(), |i: int| (rs[i].0 as nat, rcontents_view(rs[i].1@)))
}

impl View for Card {
    type V = Seq<(nat, Seq<ResolvedContent>)>;

    closed spec fn view(&self) -> Seq<(nat, Seq<ResolvedContent>)> {
        card_rems_view(self.rems@)
    }
}

/// The group of a closure: the id of the rem it belongs to and its group name.
pub open spec fn content_group(c: ResolvedContent) -> Option<(Seq<char>, Seq<char>)> {
    match c {
        ResolvedContent::Closure(id, group, _) => Some((id, group)),
        ResolvedContent::Text(_) => None,
    }
}

/// The groups of the closures among `cs`, in order.
pub open spec fn groups_in(cs: Seq<ResolvedContent>) -> Seq<(Seq<char>, Seq<char>)>
    decreases cs.len(),
{
    if cs.len() == 0 {
        seq![]
    } else {
        groups_in(cs.drop_last()) + match content_group(cs.last()) {
            Some(g) => seq![g],
            None => seq![],
        }
    }
}

/// The groups of the closures on a card, in order, with repetitions.
pub open spec fn card_group_seq(card: Seq<(nat, Seq<ResolvedContent>)>) -> Seq<(Seq<char>, Seq<char>)>
    decreases card.len(),
{
    if card.len() == 0 {
        seq![]
    } else {
        card_group_seq(card.drop_last()) + groups_in(card.last().1)
    }
}

/// `s` without its repetitions: each element where it first occurs.
pub open spec fn dedup<A>(s: Seq<A>) -> Seq<A>
    decreases s.len(),
{
    if s.len() == 0 {
        seq![]
    } else {
        let d = dedup(s.drop_last());
        if d.contains(s.last()) {
            d
        } else {
            d.push(s.last())
        }
    }
}

/// Removing repetitions keeps every element and leaves each once.
pub proof fn lemma_dedup<A>(s: Seq<A>)
    ensures
        dedup(s).no_duplicates(),
        dedup(s).to_set() == s.to_set(),
    decreases s.len(),
{
    if s.len() > 0 {
        let d = dedup(s.drop_last());
        lemma_dedup(s.drop_last());
        assert(s.to_set() =~= s.drop_last().to_set().insert(s.last())) by {
            assert forall|x: A| s.to_set().contains(x) implies s.drop_last().to_set().insert(s.last()).contains(x) by {
                let i = choose|i: int| 0 <= i < s.len() && s[i] == x;
                if i < s.len() - 1 {
                    assert(s.drop_last()[i] == x);
                }
            }
            assert forall|x: A| s.drop_last().to_set().insert(s.last()).contains(x) implies s.to_set().contains(x) by {
                if x != s.last() {
                    let i = choose|i: int| 0 <= i < s.drop_last().len() && s.drop_last()[i] == x;
                    assert(s[i] == x);
                } else {
                    assert(s[s.len() - 1] == x);
                }
            }
        }
        if d.contains(s.last()) {
            assert(d.to_set().contains(s.last()));
            assert(s.to_set() =~= d.to_set());
        } else {
            let e = d.push(s.last());
            assert forall|i: int, j: int| 0 <= i < e.len() && 0 <= j < e.len() && i != j implies e[i] != e[j] by {
                if i == d.len() as int {
                    assert(e[j] == d[j]);
                } else if j == d.len() as int {
                    assert(e[i] == d[i]);
                } else {
                    assert(e[i] == d[i] && e[j] == d[j]);
                }
            }
            assert(e.to_set() =~= d.to_set().insert(s.last())) by {
                assert forall|x: A| e.to_set().contains(x) implies d.to_set().insert(s.last()).contains(x) by {
                    let i = choose|i: int| 0 <= i < e.len() && e[i] == x;
                    if i < d.len() {
                        assert(d[i] == x);
                    }
                }
                assert forall|x: A| d.to_set().insert(s.last()).contains(x) implies e.to_set().contains(x) by {
                    if x == s.last() {
                        assert(e[d.len() as int] == x);
                    } else {
                        let i = choose|i: int| 0 <= i < d.len() && d[i] == x;
                        assert(e[i] == x);
                    }
                }
            }
        }
    }
}

pub open spec fn groups_view(gs: Seq<Group>) -> Seq<(Seq<char>, Seq<char>)> {
    Seq::new(gs.len(), |i: int| (gs[i].0@, gs[i].1@))
}

impl Card {
    pub fn rems(&self) -> (rems: &Rems)
        ensures
            card_rems_view(rems@) == self@,
    {
        &self.rems
    }

    /// Each group of closures on the card, once, where it first occurs.
    pub fn groups(&self) -> (groups: Vec<Group>)
        ensures
            groups_view(groups@) == dedup(card_group_seq(self@)),
            groups_view(groups@).no_duplicates(),
    {
        let ghost card = self@;
        let mut groups: Vec<Group> = Vec::new();
        let mut i: usize = 0;
        while i < self.rems.len()
            invariant
                0 <= i <= self.rems@.len(),
                card == card_rems_view(self.rems@),
                groups_view(groups@) == dedup(card_group_seq(card.take(i as int))),
            decreases self.rems@.len() - i,
        {
            let rem = &self.rems[i].1;
            let ghost prefix = card_group_seq(card.take(i as int));
            let mut j: usize = 0;
            while j < rem.len()
                invariant
                    0 <= i < self.rems@.len(),
                    0 <= j <= rem@.len(),
                    rem == self.rems@[i as int].1,
                    card == card_rems_view(self.rems@),
                    groups_view(groups@) == dedup(prefix + groups_in(card[i as int].1.take(j as int))),
                decreases rem@.len() - j,
            {
                let ghost cs = card[i as int].1;
                proof {
                    assert(cs[j as int] == rem@[j as int]@);
                    assert(cs.take(j + 1).drop_last() =~= cs.take(j as int));
                    assert(cs.take(j + 1).last() == cs[j as int]);
                }
                let ghost seen = prefix + groups_in(cs.take(j as int));
                match rem[j].group() {
                    Some(group) => {
                        let ghost gv = (group.0@, group.1@);
                        proof {
                            assert(content_group(cs[j as int]) == Some(gv));
                            assert(prefix + groups_in(cs.take(j + 1)) =~= seen.push(gv));
                            assert(seen.push(gv).drop_last() =~= seen);
                            assert(groups_view(groups@) == dedup(seen));
                        }
                        let mut k: usize = 0;
                        while k < groups.len() && !(groups[k].0 == group.0 && groups[k].1 == group.1)
                            invariant
                                0 <= k <= groups@.len(),
                                gv == (group.0@, group.1@),
                                forall|m: int| 0 <= m < k ==> #[trigger] groups_view(groups@)[m] != gv,
                            decreases groups@.len() - k,
                        {
                            k = k + 1;
                        }
                        let ghost d = groups_view(groups@);
                        if k == groups.len() {
                            proof {
                                assert(!d.contains(gv));
                            }
                            groups.push(group);
                            proof {
                                assert(groups_view(groups@) =~= d.push(gv));
                            }
                        } else {
                            proof {
                                assert(d[k as int] == gv);
                            }
                        }
                    },
                    None => {
                        proof {
                            assert(content_group(cs[j as int]) is None);
                            assert(prefix + groups_in(cs.take(j + 1)) =~= seen);
                        }
                    },
                }
                j = j + 1;
            }
            proof {
                assert(card.take(i + 1).drop_last() =~= card.take(i as int));
                assert(card[i as int].1.take(j as int) =~= card[i as int].1);
            }
            i = i + 1;
        }
        proof {
            assert(card.take(i as int) =~= card);
            lemma_dedup(card_group_seq(card));
        }
        groups
    }
}

/// The cards of a deck, by the id of the rem they are about, in increasing
/// order of id.
#[derive(Debug)]
pub struct Cards {
    entries: Vec<(String, Card)>,
}

impl Cards {
    #[verifier::type_invariant]
    closed spec fn wf(&self) -> bool {
        &&& forall|i: int, j: int|
            0 <= i < j < self.entries@.len() ==> seq_lt(#[trigger] self.entries@[i].0@, #[trigger] self.entries@[j].0@)
        &&& forall|i: int|
            0 <= i < self.entries@.len() ==> #[trigger] self.entries@[i].1@.len() > 0
    }

    proof fn lemma_distinct(&self)
        requires
            self.wf(),
        ensures
            forall|i: int, j: int|
                0 <= i < self.entries@.len() && 0 <= j < self.entries@.len() && i != j
                    ==> #[trigger] self.entries@[i].0@ != #[trigger] self.entries@[j].0@,
    {
        assert forall|i: int, j: int|
            0 <= i < self.entries@.len() && 0 <= j < self.entries@.len() && i != j
                implies #[trigger] self.entries@[i].0@ != #[trigger] self.entries@[j].0@ by {
            lemma_seq_lt_order(self.entries@[i].0@, self.entries@[j].0@, self.entries@[j].0@);
            lemma_seq_lt_order(self.entries@[j].0@, self.entries@[i].0@, self.entries@[i].0@);
        }
    }

    closed spec fn has(&self, k: Seq<char>) -> bool {
        exists|i: int| 0 <= i < self.entries@.len() && #[trigger] self.entries@[i].0@ == k
    }

    /// The card with id `k`, with no rems if there is none.
    pub closed spec fn lookup(&self, k: Seq<char>) -> Seq<(nat, Seq<ResolvedContent>)> {
        if self.has(k) {
            let i = choose|i: int| 0 <= i < self.entries@.len() && #[trigger] self.entries@[i].0@ == k;
            self.entries@[i].1@
        } else {
            seq![]
        }
    }

    proof fn lemma_lookup_at(&self, i: int)
        requires
            self.wf(),
            0 <= i < self.entries@.len(),
        ensures
            self.lookup(self.entries@[i].0@) == self.entries@[i].1@,
    {
        let k = self.entries@[i].0@;
        assert(self.has(k));
        self.lemma_distinct();
        let j = choose|j: int| 0 <= j < self.entries@.len() && #[trigger] self.entries@[j].0@ == k;
        assert(j == i);
    }

    proof fn lemma_lookup_nonempty(&self, k: Seq<char>)
        requires
            self.wf(),
        ensures
            self.has(k) <==> self.lookup(k).len() > 0,
    {
        if self.has(k) {
            let j = choose|j: int| 0 <= j < self.entries@.len() && #[trigger] self.entries@[j].0@ == k;
            self.lemma_lookup_at(j);
        }
    }

    pub fn new() -> (m: Cards)
        ensures
            forall|k: Seq<char>| #[trigger] m.lookup(k) == Seq::<(nat, Seq<ResolvedContent>)>::empty(),
            m@ == Map::<Seq<char>, Seq<(nat, Seq<ResolvedContent>)>>::empty(),
    {
        let m = Cards { entries: Vec::new() };
        proof {
            assert(m@ =~= Map::<Seq<char>, Seq<(nat, Seq<ResolvedContent>)>>::empty());
        }
        m
    }

    /// Appends a rem's contribution to card `key`, making the card if needed; a
    /// new card takes its place in the order of ids.
    pub fn extend_at(&mut self, key: String, value: (usize, Vec<Content>))
        ensures
            forall|k: Seq<char>| #[trigger] final(self).lookup(k) == if k == key@ {
                old(self).lookup(k).push((value.0 as nat, rcontents_view(value.1@)))
            } else {
                old(self).lookup(k)
            },
            final(self)@ == old(self)@.insert(key@, old(self).lookup(key@).push((value.0 as nat, rcontents_view(value.1@)))),
            final(self)@.dom().len() == old(self)@.dom().len() + if old(self)@.contains_key(key@) {
                0int
            } else {
                1int
            },
    {
        proof {
            use_type_invariant(&*self);
            self.lemma_distinct();
            self.lemma_dom();
        }
        let ghost v = (value.0 as nat, rcontents_view(value.1@));
        let ghost k0 = key@;
        let mut i: usize = 0;
        while i < self.entries.len() && str_lt(self.entries[i].0.as_str(), key.as_str())
            invariant
                0 <= i <= self.entries@.len(),
                self.entries@ == old(self).entries@,
                forall|j: int| 0 <= j < i ==> seq_lt(#[trigger] self.entries@[j].0@, key@),
            decreases self.entries@.len() - i,
        {
            i = i + 1;
        }
        let ghost old_entries = self.entries@;
        if i < self.entries.len() && self.entries[i].0 == key {
            proof {
                old(self).lemma_lookup_at(i as int);
            }
            let mut entries: Vec<(String, Card)> = Vec::new();
            std::mem::swap(&mut entries, &mut self.entries);
            let (k, mut card) = entries.remove(i);
            let ghost old_card = card@;
            card.rems.push(value);
            proof {
                assert(card@ =~= old_card.push(v));
            }
            entries.insert(i, (k, card));
            proof {
                assert(entries@ =~= old_entries.update(i as int, (old_entries[i as int].0, card)));
            }
            self.entries = entries;
            proof {
                assert(self.wf());
                self.lemma_distinct();
                self.lemma_dom();
                assert forall|k: Seq<char>| #[trigger] self.lookup(k) == if k == k0 {
                    old(self).lookup(k).push(v)
                } else {
                    old(self).lookup(k)
                } by {
                    if k == k0 {
                        self.lemma_lookup_at(i as int);
                    } else if self.has(k) {
                        let j = choose|j: int| 0 <= j < self.entries@.len() && #[trigger] self.entries@[j].0@ == k;
                        self.lemma_lookup_at(j);
                        old(self).lemma_lookup_at(j);
                    } else if old(self).has(k) {
                        let j = choose|j: int| 0 <= j < old(self).entries@.len() && #[trigger] old(self).entries@[j].0@ == k;
                        assert(self.entries@[j].0@ == k);
                    }
                }
                assert(old(self)@.contains_key(k0));
                assert(self@ =~= old(self)@.insert(k0, old(self).lookup(k0).push(v)));
            }
        } else {
            proof {
                assert forall|j: int| 0 <= j < old_entries.len() implies #[trigger] old_entries[j].0@ != k0 by {
                    if j < i {
                        lemma_seq_lt_order(old_entries[j].0@, k0, k0);
                    } else {
                        lemma_seq_lt_order(old_entries[i as int].0@, k0, old_entries[j].0@);
                        lemma_seq_lt_order(k0, old_entries[i as int].0@, old_entries[j].0@);
                    }
                }
                assert(!old(self).has(k0));
            }
            let mut rems: Rems = Vec::new();
            rems.push(value);
            let card = Card { rems };
            proof {
                assert(card@ =~= seq![v]);
            }
            let mut entries: Vec<(String, Card)> = Vec::new();
            std::mem::swap(&mut entries, &mut self.entries);
            entries.insert(i, (key, card));
            proof {
                assert forall|a: int, b: int| 0 <= a < b < entries@.len() implies seq_lt(
                    #[trigger] entries@[a].0@,
                    #[trigger] entries@[b].0@,
                ) by {
                    if b < i {
                        assert(entries@[a] == old_entries[a] && entries@[b] == old_entries[b]);
                    } else if b == i {
                        assert(entries@[a] == old_entries[a]);
                    } else if a == i {
                        assert(entries@[b] == old_entries[b - 1]);
                        lemma_seq_lt_order(old_entries[i as int].0@, k0, old_entries[b - 1].0@);
                        lemma_seq_lt_order(k0, old_entries[i as int].0@, old_entries[b - 1].0@);
                    } else if a < i {
                        assert(entries@[a] == old_entries[a] && entries@[b] == old_entries[b - 1]);
                    } else {
                        assert(entries@[a] == old_entries[a - 1] && entries@[b] == old_entries[b - 1]);
                    }
                }
                assert forall|a: int| 0 <= a < entries@.len() implies #[trigger] entries@[a].1@.len() > 0 by {
                    if a < i {
                        assert(entries@[a] == old_entries[a]);
                    } else if a > i {
                        assert(entries@[a] == old_entries[a - 1]);
                    }
                }
            }
            self.entries = entries;
            proof {
                assert(self.wf());
                self.lemma_distinct();
                self.lemma_dom();
                assert forall|k: Seq<char>| #[trigger] self.lookup(k) == if k == k0 {
                    old(self).lookup(k).push(v)
                } else {
                    old(self).lookup(k)
                } by {
                    if k == k0 {
                        self.lemma_lookup_at(i as int);
                        assert(Seq::<(nat, Seq<ResolvedContent>)>::empty().push(v) =~= seq![v]);
                    } else if old(self).has(k) {
                        let j = choose|j: int| 0 <= j < old(self).entries@.len() && #[trigger] old(self).entries@[j].0@ == k;
                        old(self).lemma_lookup_at(j);
                        if j < i {
                            assert(self.entries@[j] == old_entries[j]);
                            self.lemma_lookup_at(j);
                        } else {
                            assert(self.entries@[j + 1] == old_entries[j]);
                            self.lemma_lookup_at(j + 1);
                        }
                    } else if self.has(k) {
                        let j = choose|j: int| 0 <= j < self.entries@.len() && #[trigger] self.entries@[j].0@ == k;
                        if j < i {
                            assert(old_entries[j] == self.entries@[j]);
                        } else {
                            assert(old_entries[j - 1] == self.entries@[j]);
                        }
                    }
                }
                assert(!old(self)@.contains_key(k0));
                assert(self@ =~= old(self)@.insert(k0, old(self).lookup(k0).push(v)));
            }
        }
    }
}


impl View for Cards {
    type V = Map<Seq<char>, Seq<(nat, Seq<ResolvedContent>)>>;

    closed spec fn view(&self) -> Map<Seq<char>, Seq<(nat, Seq<ResolvedContent>)>> {
        Map::new(|k: Seq<char>| self.lookup(k).len() > 0, |k: Seq<char>| self.lookup(k))
    }
}

impl Cards {
    /// The rems of the card `k` are what the map holds for `k`, and none if it
    /// holds nothing for `k`; a card in the map has at least one rem.
    pub proof fn lemma_lookup_view(&self)
        ensures
            forall|k: Seq<char>| #[trigger] self.lookup(k) == if self@.contains_key(k) {
                self@[k]
            } else {
                Seq::<(nat, Seq<ResolvedContent>)>::empty()
            },
            forall|k: Seq<char>| #[trigger] self@.contains_key(k) ==> self@[k].len() > 0,
    {
        assert forall|k: Seq<char>| #[trigger] self.lookup(k) == if self@.contains_key(k) {
            self@[k]
        } else {
            Seq::<(nat, Seq<ResolvedContent>)>::empty()
        } by {
            if !self@.contains_key(k) {
                assert(self.lookup(k) =~= Seq::<(nat, Seq<ResolvedContent>)>::empty());
            }
        }
    }

    /// The card with id `id`, if there is one.
    pub fn get(&self, id: &str) -> (card: Option<&Card>)
        ensures
            match card {
                Some(c) => self@.contains_key(id@) && c@ == self@[id@],
                None => !self@.contains_key(id@),
            },
    {
        proof {
            use_type_invariant(self);
        }
        let key = String::from_str(id);
        let mut i: usize = 0;
        while i < self.entries.len() && self.entries[i].0 != key
            invariant
                0 <= i <= self.entries@.len(),
                forall|j: int| 0 <= j < i ==> #[trigger] self.entries@[j].0@ != key@,
            decreases self.entries@.len() - i,
        {
            i = i + 1;
        }
        if i < self.entries.len() {
            proof {
                self.lemma_lookup_at(i as int);
            }
            Some(&self.entries[i].1)
        } else {
            proof {
                assert(!self.has(id@));
            }
            None
        }
    }

    /// The number of cards.
    pub fn len(&self) -> (n: usize)
        ensures
            n == self@.dom().len(),
            self@.dom().finite(),
            forall|k: Seq<char>| #[trigger] self@.contains_key(k) <==> exists|i: usize| i < n && #[trigger] self.entry_key(i) == k,
            forall|i: usize, j: usize| i < j < n ==> #[trigger] self.entry_key(i) != #[trigger] self.entry_key(j),
            forall|i: usize, j: usize| i < j < n ==> seq_lt(#[trigger] self.entry_key(i), #[trigger] self.entry_key(j)),
    {
        proof {
            use_type_invariant(self);
            self.lemma_distinct();
            self.lemma_dom();
            assert forall|k: Seq<char>| #[trigger] self@.contains_key(k) implies exists|i: usize| i < self.entries@.len() && #[trigger] self.entry_key(i) == k by {
                assert(self.has(k));
                let i = choose|i: int| 0 <= i < self.entries@.len() && #[trigger] self.entries@[i].0@ == k;
                assert(i < self.entries.len());
                assert(self.entry_key(i as usize) == k);
            }
            assert forall|k: Seq<char>| (exists|i: usize| i < self.entries@.len() && #[trigger] self.entry_key(i) == k) implies #[trigger] self@.contains_key(k) by {
                let i = choose|i: usize| i < self.entries@.len() && #[trigger] self.entry_key(i) == k;
                assert(self.entries@[i as int].0@ == k);
            }
        }
        self.entries.len()
    }

    /// The `i`-th card and its id, in no particular order.
    pub fn entry(&self, i: usize) -> (e: (&String, &Card))
        requires
            i < self@.dom().len(),
        ensures
            self@.contains_key(e.0@),
            e.1@ == self@[e.0@],
            forall|j: usize| #![trigger self.entry_key(j)] j < self@.dom().len() && j != i ==> self.entry_key(j) != e.0@,
            self.entry_key(i) == e.0@,
    {
        proof {
            use_type_invariant(self);
            self.lemma_distinct();
            self.lemma_dom();
            self.lemma_lookup_at(i as int);
        }
        (&self.entries[i].0, &self.entries[i].1)
    }

    /// The id of the `i`-th card.
    pub closed spec fn entry_key(&self, i: usize) -> Seq<char> {
        self.entries@[i as int].0@
    }

    proof fn lemma_dom(&self)
        requires
            self.wf(),
        ensures
            self@.dom().finite(),
            self@.dom().len() == self.entries@.len(),
            forall|k: Seq<char>| self@.contains_key(k) <==> self.has(k),
    {
        self.lemma_distinct();
        let keys = Seq::new(self.entries@.len(), |i: int| self.entries@[i].0@);
        assert forall|k: Seq<char>| self@.contains_key(k) <==> self.has(k) by {
            self.lemma_lookup_nonempty(k);
        }
        assert(self@.dom() =~= keys.to_set()) by {
            assert forall|k: Seq<char>| self@.dom().contains(k) implies keys.to_set().contains(k) by {
                let i = choose|i: int| 0 <= i < self.entries@.len() && #[trigger] self.entries@[i].0@ == k;
                assert(keys[i] == k);
            }
            assert forall|k: Seq<char>| keys.to_set().contains(k) implies self@.dom().contains(k) by {
                let i = choose|i: int| 0 <= i < keys.len() && keys[i] == k;
                assert(self.entries@[i].0@ == k);
            }
        }
        assert(keys.no_duplicates()) by {
            assert forall|i: int, j: int| 0 <= i < keys.len() && 0 <= j < keys.len() && i != j implies keys[i] != keys[j] by {
                if i < j {
                    assert(self.entries@[i].0@ != self.entries@[j].0@);
                } else {
                    assert(self.entries@[j].0@ != self.entries@[i].0@);
                }
            }
        }
        keys.unique_seq_to_set();
    }
}

/// The deck of the rems `rems`: for each card id, what every rem contributes to
/// it, in document order; only ids with something on them have a card.
pub open spec fn deck_of(rems: Seq<ResolvedRem>) -> Map<Seq<char>, Seq<(nat, Seq<ResolvedContent>)>> {
    Map::new(|k: Seq<char>| cards_for(rems, 0, k).len() > 0, |k: Seq<char>| cards_for(rems, 0, k))
}

/// The cards made from one document.
#[derive(Debug)]
pub struct Deck {
    cards: Cards,
}

impl View for Deck {
    type V = Map<Seq<char>, Seq<(nat, Seq<ResolvedContent>)>>;

    closed spec fn view(&self) -> Map<Seq<char>, Seq<(nat, Seq<ResolvedContent>)>> {
        self.cards@
    }
}

impl Deck {
    pub closed spec fn spec_cards(self) -> Cards {
        self.cards
    }

    pub fn cards(&self) -> (cards: &Cards)
        ensures
            cards@ == self@,
            *cards == self.spec_cards(),
    {
        &self.cards
    }

    /// The cards of a document: every rem adds what it has for each card.
    pub fn from_document(value: &Document) -> (deck: Deck)
        ensures
            deck@ == deck_of(value@),
    {
        let rems = value.rems();
        let mut cards = Cards::new();
        let mut i: usize = 0;
        while i < rems.len()
            invariant
                0 <= i <= rems@.len(),
                rrems_view(rems@) == value@,
                forall|j: int| 0 <= j < value@.len() ==> fits(#[trigger] value@[j], 0),
                forall|k: Seq<char>| #[trigger] cards.lookup(k) == cards_for(value@.take(i as int), 0, k),
            decreases rems@.len() - i,
        {
            proof {
                assert(rems@[i as int]@ == value@[i as int]);
                assert(fits(value@[i as int], 0));
            }
            rems[i].insert_into(&mut cards, 0);
            proof {
                assert forall|k: Seq<char>| #[trigger] cards.lookup(k) == cards_for(value@.take(i + 1), 0, k) by {
                    assert(value@.take(i + 1) =~= value@.take(i as int).push(value@[i as int]));
                    crate::deck::cards::lemma_cards_for_snoc(value@.take(i as int), value@[i as int], 0, k);
                }
            }
            i = i + 1;
        }
        proof {
            assert(value@.take(i as int) =~= value@);
        }
        let deck = Deck { cards };
        proof {
            assert(deck@ =~= deck_of(value@));
        }
        deck
    }
}

impl Deck {
    /// A deck holding `cards`.
    pub fn from_cards(cards: Cards) -> (deck: Deck)
        ensures
            deck@ == cards@,
            deck.spec_cards() == cards,
    {
        Deck { cards }
    }

    /// The deck of the document written in `input`, whose closures all belong to
    /// a rem of it.
    pub fn parse(input: &str) -> (deck: Deck)
        requires
            parse_document(input@) matches Some(rs) && resolvable_rems(rs, 0),
        ensures
            parse_document(input@) matches Some(rs) && deck@ == deck_of(resolve_rems(rs, seq![])),
    {
        match parser::parse(input) {
            Ok(ast) => {
                proof {
                    lemma_parse_document(input@, ast@);
                }
                let doc = Document::from_ast(&ast);
                Deck::from_document(&doc)
            },
            Err(_) => {
                proof {
                    lemma_parse_document(input@, parse_document(input@).unwrap());
                    assert(false);
                }
                Deck::from_cards(Cards::new())
            },
        }
    }
}

impl From<Document> for Deck {
    fn from(value: Document) -> (deck: Deck)
        ensures
            deck@ == deck_of(value@),
    {
        Deck::from_document(&value)
    }
}

/// A deck is described by its view (see `From::from` above), not as a value of
/// its own, so `from_spec` is left unused.
impl vstd::std_specs::convert::FromSpecImpl<Document> for Deck {
    open spec fn obeys_from_spec() -> bool {
        false
    }

    open spec fn from_spec(v: Document) -> Deck {
        vstd::pervasive::arbitrary()
    }
}

} // verus!
