mod entry;

use vstd::prelude::*;
use crate::archive::impls::reverse::Reverse;
use crate::deck::{Cards, Deck, card_group_seq, dedup};
use crate::deck::document::strings_view;
use crate::schedule::Review;
pub use entry::{Entry, card_id_view};

verus! {

/// The cards of a learning session, the one due soonest first.
#[derive(Debug)]
pub struct Session<C, D> {
    queue: Vec<Reverse<Entry<C, D>>>,
}

impl<C, D> Session<C, D> {
    /// The entries of the session, in no particular order.
    pub closed spec fn entries(&self) -> Seq<Entry<C, D>> {
        Seq::new(self.queue@.len(), |i: int| self.queue@[i].inner())
    }
}

/// `e` is the first entry of `es` that is due no later than any other.
pub open spec fn first_due<C, D: Review>(es: Seq<Entry<C, D>>, i: int) -> bool {
    &&& 0 <= i < es.len()
    &&& forall|j: int| 0 <= j < es.len() ==> es[i].spec_data().spec_due() <= #[trigger] es[j].spec_data().spec_due()
    &&& forall|j: int| 0 <= j < i ==> es[i].spec_data().spec_due() < #[trigger] es[j].spec_data().spec_due()
}

impl<C, D: Review> Session<C, D> {
    pub fn len(&self) -> (n: usize)
        ensures
            n == self.entries().len(),
    {
        self.queue.len()
    }

    /// Takes out the entry due soonest (the first of them, if several are due
    /// at once).
    pub fn pop(&mut self) -> (e: Option<Entry<C, D>>)
        ensures
            match e {
                None => old(self).entries().len() == 0 && final(self).entries() == old(self).entries(),
                Some(e) => exists|i: int| first_due(old(self).entries(), i) && e == old(self).entries()[i]
                    && final(self).entries() == old(self).entries().remove(i),
            },
    {
        if self.queue.len() == 0 {
            proof {
                assert(self.entries() =~= old(self).entries());
            }
            return None;
        }
        let ghost es = self.entries();
        let mut best: usize = 0;
        let mut best_due = self.queue[0].get_ref().due();
        let mut i: usize = 1;
        while i < self.queue.len()
            invariant
                0 <= best < i <= self.queue@.len(),
                es == self.entries(),
                best_due == es[best as int].spec_data().spec_due(),
                forall|j: int| 0 <= j < i ==> best_due <= #[trigger] es[j].spec_data().spec_due(),
                forall|j: int| 0 <= j < best ==> best_due < #[trigger] es[j].spec_data().spec_due(),
            decreases self.queue@.len() - i,
        {
            let d = self.queue[i].get_ref().due();
            if d < best_due {
                best = i;
                best_due = d;
            }
            i = i + 1;
        }
        let e = self.queue.remove(best).get();
        proof {
            assert(first_due(es, best as int));
            assert(self.entries() =~= es.remove(best as int));
        }
        Some(e)
    }

    /// Puts an entry (back) in the session.
    pub fn push(&mut self, entry: Entry<C, D>)
        ensures
            final(self).entries() == old(self).entries().push(entry),
    {
        self.queue.push(Reverse::new(entry));
        proof {
            assert(self.entries() =~= old(self).entries().push(entry));
        }
    }
}

/// Taking out the entry due soonest and putting it back keeps the same entries:
/// a round of learning loses no card and adds none.
pub proof fn lemma_round_keeps_entries<C, D: Review>(es: Seq<Entry<C, D>>, i: int)
    requires
        first_due(es, i),
    ensures
        es.remove(i).push(es[i]).to_multiset() == es.to_multiset(),
{
    broadcast use vstd::multiset::group_multiset_axioms;
    let rest = es.remove(i);
    es.to_multiset_ensures();
    rest.to_multiset_ensures();
    rest.push(es[i]).to_multiset_ensures();
    assert(es == es.take(i) + es.skip(i));
    assert(rest == es.take(i) + es.skip(i + 1));
    assert(es.skip(i) == seq![es[i]] + es.skip(i + 1));
    vstd::seq_lib::lemma_multiset_commutative(es.take(i), es.skip(i));
    vstd::seq_lib::lemma_multiset_commutative(es.take(i), es.skip(i + 1));
    vstd::seq_lib::lemma_multiset_commutative(seq![es[i]], es.skip(i + 1));
    assert(seq![es[i]].to_multiset() =~= vstd::multiset::Multiset::empty().insert(es[i])) by {
        seq![es[i]].to_multiset_ensures();
        assert(seq![es[i]] == Seq::<Entry<C, D>>::empty().push(es[i]));
        Seq::<Entry<C, D>>::empty().to_multiset_ensures();
    }
    assert(rest.push(es[i]).to_multiset() =~= rest.to_multiset().insert(es[i]));
    assert(es.to_multiset() =~= rest.to_multiset().insert(es[i]));
}

/// A card of a session as plain text: the location of its deck and its id.
pub type EntryKey = (Seq<Seq<char>>, (Seq<char>, (Seq<char>, Seq<char>)));

pub open spec fn entry_key<D>(e: Entry<String, D>) -> EntryKey {
    (strings_view(e.spec_location()), e.spec_id())
}

/// One entry for each group of the card `id`.
pub open spec fn card_entries(path: Seq<Seq<char>>, id: Seq<char>, groups: Seq<(Seq<char>, Seq<char>)>) -> Seq<EntryKey> {
    Seq::new(groups.len(), |g: int| (path, (id, groups[g])))
}

/// The entries for the first `n` cards of a deck at `path`.
pub open spec fn deck_entries(cards: Cards, path: Seq<Seq<char>>, n: nat) -> Seq<EntryKey>
    decreases n,
{
    if n == 0 {
        seq![]
    } else {
        let id = cards.entry_key((n - 1) as usize);
        deck_entries(cards, path, (n - 1) as nat) + card_entries(path, id, dedup(card_group_seq(cards@[id])))
    }
}

/// The entries for all cards of all decks, one per group of closures.
pub open spec fn session_entries(decks: Seq<(Deck, Vec<String>)>) -> Seq<EntryKey>
    decreases decks.len(),
{
    if decks.len() == 0 {
        seq![]
    } else {
        let (deck, path) = decks.last();
        session_entries(decks.drop_last()) + deck_entries(deck.spec_cards(), strings_view(path@), deck.spec_cards()@.dom().len())
    }
}

/// The ids of the first `n` cards of `cards` differ from each other.
pub open spec fn ids_distinct(cards: Cards, n: nat) -> bool {
    forall|i: usize, j: usize| i < j < n ==> #[trigger] cards.entry_key(i) != #[trigger] cards.entry_key(j)
}

/// No two decks are at the same location.
pub open spec fn paths_distinct(decks: Seq<(Deck, Vec<String>)>) -> bool {
    forall|a: int, b: int| 0 <= a < b < decks.len() ==> strings_view(decks[a].1@) != strings_view(decks[b].1@)
}

pub open spec fn decks_ids_distinct(decks: Seq<(Deck, Vec<String>)>) -> bool {
    forall|d: int| 0 <= d < decks.len() ==> {
        let cards = #[trigger] decks[d].0.spec_cards();
        &&& cards@.dom().len() <= usize::MAX
        &&& ids_distinct(cards, cards@.dom().len())
    }
}

proof fn lemma_no_duplicates_concat<A>(a: Seq<A>, b: Seq<A>)
    requires
        a.no_duplicates(),
        b.no_duplicates(),
        forall|x: A| a.contains(x) ==> !b.contains(x),
    ensures
        (a + b).no_duplicates(),
{
    let c = a + b;
    assert forall|i: int, j: int| 0 <= i < c.len() && 0 <= j < c.len() && i != j implies c[i] != c[j] by {
        if i < a.len() && j < a.len() {
            assert(c[i] == a[i] && c[j] == a[j]);
        } else if i >= a.len() && j >= a.len() {
            assert(c[i] == b[i - a.len()] && c[j] == b[j - a.len()]);
        } else if i < a.len() {
            assert(a.contains(c[i]));
            assert(b.contains(b[j - a.len()]));
        } else {
            assert(a.contains(c[j]));
            assert(b.contains(b[i - a.len()]));
        }
    }
}

proof fn lemma_card_entries(path: Seq<Seq<char>>, id: Seq<char>, groups: Seq<(Seq<char>, Seq<char>)>)
    requires
        groups.no_duplicates(),
    ensures
        forall|x: EntryKey| #[trigger] card_entries(path, id, groups).contains(x) ==> x.0 == path && x.1.0 == id,
        card_entries(path, id, groups).no_duplicates(),
{
    let ce = card_entries(path, id, groups);
    assert forall|x: EntryKey| #[trigger] ce.contains(x) implies x.0 == path && x.1.0 == id by {
        let i = choose|i: int| 0 <= i < ce.len() && ce[i] == x;
    }
    assert forall|i: int, j: int| 0 <= i < ce.len() && 0 <= j < ce.len() && i != j implies ce[i] != ce[j] by {
        assert(groups[i] != groups[j]);
    }
}

proof fn lemma_deck_entries(cards: Cards, path: Seq<Seq<char>>, n: nat)
    requires
        n <= usize::MAX,
        ids_distinct(cards, n),
    ensures
        forall|x: EntryKey| #[trigger] deck_entries(cards, path, n).contains(x) ==> x.0 == path
            && exists|i: usize| i < n && #[trigger] cards.entry_key(i) == x.1.0,
        deck_entries(cards, path, n).no_duplicates(),
    decreases n,
{
    if n > 0 {
        let m = (n - 1) as nat;
        lemma_deck_entries(cards, path, m);
        let id = cards.entry_key(m as usize);
        let gs = dedup(card_group_seq(cards@[id]));
        crate::deck::lemma_dedup(card_group_seq(cards@[id]));
        lemma_card_entries(path, id, gs);
        let prev = deck_entries(cards, path, m);
        let ce = card_entries(path, id, gs);
        assert forall|x: EntryKey| prev.contains(x) implies !ce.contains(x) by {
            if ce.contains(x) {
                let i = choose|i: usize| i < m && #[trigger] cards.entry_key(i) == x.1.0;
                assert(cards.entry_key(i) != cards.entry_key(m as usize));
            }
        }
        lemma_no_duplicates_concat(prev, ce);
        assert forall|x: EntryKey| #[trigger] deck_entries(cards, path, n).contains(x) implies x.0 == path
            && exists|i: usize| i < n && #[trigger] cards.entry_key(i) == x.1.0 by {
            let k = choose|k: int| 0 <= k < (prev + ce).len() && (prev + ce)[k] == x;
            if k < prev.len() {
                assert(prev.contains(x));
            } else {
                assert(ce.contains(x));
                assert(cards.entry_key(m as usize) == x.1.0);
            }
        }
    }
}

proof fn lemma_session_entries(decks: Seq<(Deck, Vec<String>)>)
    requires
        paths_distinct(decks),
        decks_ids_distinct(decks),
    ensures
        forall|x: EntryKey| #[trigger] session_entries(decks).contains(x) ==> exists|d: int|
            0 <= d < decks.len() && x.0 == strings_view(#[trigger] decks[d].1@),
        session_entries(decks).no_duplicates(),
    decreases decks.len(),
{
    if decks.len() > 0 {
        let init = decks.drop_last();
        let (deck, path) = decks.last();
        let cards = deck.spec_cards();
        assert(decks[decks.len() - 1] == decks.last());
        assert(paths_distinct(init)) by {
            assert forall|a: int, b: int| 0 <= a < b < init.len() implies strings_view(init[a].1@) != strings_view(init[b].1@) by {
                assert(init[a] == decks[a] && init[b] == decks[b]);
            }
        }
        assert(decks_ids_distinct(init)) by {
            assert forall|d: int| 0 <= d < init.len() implies {
                let cards = #[trigger] init[d].0.spec_cards();
                &&& cards@.dom().len() <= usize::MAX
                &&& ids_distinct(cards, cards@.dom().len())
            } by {
                assert(init[d] == decks[d]);
            }
        }
        lemma_session_entries(init);
        lemma_deck_entries(cards, strings_view(path@), cards@.dom().len());
        let prev = session_entries(init);
        let de = deck_entries(cards, strings_view(path@), cards@.dom().len());
        assert forall|x: EntryKey| prev.contains(x) implies !de.contains(x) by {
            let d = choose|d: int| 0 <= d < init.len() && x.0 == strings_view(#[trigger] init[d].1@);
            assert(init[d] == decks[d]);
            assert(strings_view(decks[d].1@) != strings_view(decks[decks.len() - 1].1@));
        }
        lemma_no_duplicates_concat(prev, de);
        assert forall|x: EntryKey| #[trigger] session_entries(decks).contains(x) implies exists|d: int|
            0 <= d < decks.len() && x.0 == strings_view(#[trigger] decks[d].1@) by {
            let k = choose|k: int| 0 <= k < (prev + de).len() && (prev + de)[k] == x;
            if k < prev.len() {
                assert(prev.contains(x));
                let d = choose|d: int| 0 <= d < init.len() && x.0 == strings_view(#[trigger] init[d].1@);
                assert(init[d] == decks[d]);
            } else {
                assert(de.contains(x));
                assert(x.0 == strings_view(decks[decks.len() - 1].1@));
            }
        }
    }
}

impl<D: Review + Default> Session<String, D> {
    /// A session with an entry for each group of closures of each card of the
    /// decks, each with fresh scheduling data.
    pub fn new(decks: &Vec<(Deck, Vec<String>)>) -> (s: Self)
        ensures
            s.entries().map_values(|e: Entry<String, D>| entry_key(e)) == session_entries(decks@),
            forall|i: int| 0 <= i < s.entries().len() ==> D::default.ensures((), #[trigger] s.entries()[i].spec_data()),
            paths_distinct(decks@) ==> s.entries().map_values(|e: Entry<String, D>| entry_key(e)).no_duplicates(),
    {
        let mut session = Session { queue: Vec::new() };
        let mut d: usize = 0;
        while d < decks.len()
            invariant
                0 <= d <= decks@.len(),
                session.entries().map_values(|e: Entry<String, D>| entry_key(e)) == session_entries(decks@.take(d as int)),
                forall|i: int| 0 <= i < session.entries().len() ==> D::default.ensures((), #[trigger] session.entries()[i].spec_data()),
                decks_ids_distinct(decks@.take(d as int)),
            decreases decks@.len() - d,
        {
            let deck = &decks[d].0;
            let path = &decks[d].1;
            let cards = deck.cards();
            let n = cards.len();
            proof {
                let next = decks@.take(d + 1);
                assert forall|dd: int| 0 <= dd < next.len() implies {
                    let cards = #[trigger] next[dd].0.spec_cards();
                    &&& cards@.dom().len() <= usize::MAX
                    &&& ids_distinct(cards, cards@.dom().len())
                } by {
                    if dd < d {
                        assert(next[dd] == decks@.take(d as int)[dd]);
                    } else {
                        assert(next[dd] == decks@[d as int]);
                    }
                }
            }
            let ghost before = session.entries().map_values(|e: Entry<String, D>| entry_key(e));
            let mut c: usize = 0;
            while c < n
                invariant
                    0 <= c <= n,
                    n == cards@.dom().len(),
                    cards == deck.spec_cards(),
                    session.entries().map_values(|e: Entry<String, D>| entry_key(e)) == before + deck_entries(*cards, strings_view(path@), c as nat),
                    forall|i: int| 0 <= i < session.entries().len() ==> D::default.ensures((), #[trigger] session.entries()[i].spec_data()),
                decreases n - c,
            {
                let (id, card) = cards.entry(c);
                let groups = card.groups();
                let ghost mid = session.entries().map_values(|e: Entry<String, D>| entry_key(e));
                let mut g: usize = 0;
                while g < groups.len()
                    invariant
                        0 <= g <= groups@.len(),
                        session.entries().map_values(|e: Entry<String, D>| entry_key(e)) == mid + card_entries(strings_view(path@), id@, crate::deck::groups_view(groups@).take(g as int)),
                        forall|i: int| 0 <= i < session.entries().len() ==> D::default.ensures((), #[trigger] session.entries()[i].spec_data()),
                    decreases groups@.len() - g,
                {
                    let location = clone_strings(path);
                    let group = (groups[g].0.clone(), groups[g].1.clone());
                    let data = D::default();
                    let entry = Entry::new(location, (id.clone(), group), data);
                    let ghost old_entries = session.entries();
                    session.push(entry);
                    proof {
                        assert(session.entries().map_values(|e: Entry<String, D>| entry_key(e)) =~= old_entries.map_values(|e: Entry<String, D>| entry_key(e)).push(entry_key(entry)));
                        assert(crate::deck::groups_view(groups@).take(g + 1) =~= crate::deck::groups_view(groups@).take(g as int).push(crate::deck::groups_view(groups@)[g as int]));
                        assert(session.entries().map_values(|e: Entry<String, D>| entry_key(e)) =~= mid + card_entries(strings_view(path@), id@, crate::deck::groups_view(groups@).take(g + 1)));
                        assert forall|i: int| 0 <= i < session.entries().len() implies D::default.ensures((), #[trigger] session.entries()[i].spec_data()) by {
                            if i < old_entries.len() {
                                assert(session.entries()[i] == old_entries[i]);
                            }
                        }
                    }
                    g = g + 1;
                }
                proof {
                    assert(crate::deck::groups_view(groups@).take(g as int) =~= crate::deck::groups_view(groups@));
                    assert(deck_entries(*cards, strings_view(path@), (c + 1) as nat) == deck_entries(*cards, strings_view(path@), c as nat)
                        + card_entries(strings_view(path@), id@, dedup(card_group_seq(cards@[id@]))));
                    assert(session.entries().map_values(|e: Entry<String, D>| entry_key(e)) =~= before + deck_entries(*cards, strings_view(path@), (c + 1) as nat));
                }
                c = c + 1;
            }
            proof {
                assert(decks@.take(d + 1).drop_last() =~= decks@.take(d as int));
                assert(decks@.take(d + 1).last() == decks@[d as int]);
            }
            d = d + 1;
        }
        proof {
            assert(decks@.take(d as int) =~= decks@);
            if paths_distinct(decks@) {
                lemma_session_entries(decks@);
            }
        }
        session
    }
}

/// A copy of a list of strings.
fn clone_strings(v: &Vec<String>) -> (c: Vec<String>)
    ensures
        c@ == v@,
{
    let mut c: Vec<String> = Vec::new();
    let mut i: usize = 0;
    while i < v.len()
        invariant
            0 <= i <= v@.len(),
            c@ == v@.take(i as int),
        decreases v@.len() - i,
    {
        c.push(v[i].clone());
        proof {
            assert(c@ =~= v@.take(i + 1));
        }
        i = i + 1;
    }
    proof {
        assert(v@.take(i as int) =~= v@);
    }
    c
}

} // verus!
