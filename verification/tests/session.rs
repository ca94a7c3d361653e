use remedy::deck::document::Document;
use remedy::deck::Deck;
use remedy::schedule::{Query, Review};
use remedy::session::{Entry, Session};

#[derive(Debug, Default, Clone, Copy, PartialEq)]
struct Days(u32);

/// The next due date, as a learner would give it.
#[derive(Debug, Clone, Copy, PartialEq)]
struct NextDue(u32);

impl Query for NextDue {
    fn query() -> Self {
        NextDue(1)
    }
}

impl Review for Days {
    type Score = NextDue;

    fn spec_due(&self) -> u32 {
        self.0
    }

    fn due(&self) -> u32 {
        self.0
    }

    fn review(&mut self, score: NextDue) {
        self.0 = score.0;
    }
}

fn entry(id: &str, due: u32) -> Entry<String, Days> {
    Entry::new(vec!["deck".to_string()], (id.to_string(), (id.to_string(), "G".to_string())), Days(due))
}

#[test]
fn the_entry_due_soonest_comes_out_first() {
    let mut s = Session::new(&Vec::new());
    assert_eq!(s.len(), 0);
    assert!(s.pop().is_none());
    s.push(entry("a", 5));
    s.push(entry("b", 2));
    s.push(entry("c", 2));
    s.push(entry("d", 9));
    assert_eq!(s.len(), 4);
    let first = s.pop().unwrap();
    assert_eq!(first.id().0, "b");
    assert_eq!(s.pop().unwrap().id().0, "c");
    assert_eq!(s.pop().unwrap().id().0, "a");
    assert_eq!(s.pop().unwrap().id().0, "d");
    assert!(s.pop().is_none());
}

#[test]
fn a_reviewed_entry_goes_back_in_its_place() {
    let mut s = Session::new(&Vec::new());
    s.push(entry("a", 1));
    s.push(entry("b", 3));
    let mut e = s.pop().unwrap();
    e.data_mut().review(NextDue(7));
    assert_eq!(e.due(), 7);
    s.push(e);
    assert_eq!(s.len(), 2);
    assert_eq!(s.pop().unwrap().id().0, "b");
    assert_eq!(s.pop().unwrap().id().0, "a");
}

#[test]
fn one_entry_per_group_of_each_card() {
    let deck = Deck::from(Document::parse("<k (A)[a] (A)[b] (C)[c]>\n<m (D)[d]>\n").unwrap());
    let decks = vec![(deck, vec!["decks".to_string(), "one".to_string()])];
    let mut s: Session<String, Days> = Session::new(&decks);
    assert_eq!(s.len(), 3);
    let mut ids = Vec::new();
    while let Some(e) = s.pop() {
        assert_eq!(e.location(), &vec!["decks".to_string(), "one".to_string()]);
        assert_eq!(e.due(), 0);
        ids.push(e.id());
    }
    ids.sort();
    assert_eq!(
        ids,
        vec![
            ("k".to_string(), ("k".to_string(), "A".to_string())),
            ("k".to_string(), ("k".to_string(), "C".to_string())),
            ("m".to_string(), ("m".to_string(), "D".to_string())),
        ]
    );
}
