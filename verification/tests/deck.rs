use remedy::deck::document::{Content, Document};
use remedy::deck::{Cards, Deck};

#[test]
fn closure_gen() {
    let deck = Deck::from(Document::parse("<12345678 (A)[a] | (B)[b]>\n").unwrap());
    assert_eq!(
        deck.cards().get("12345678").unwrap().rems(),
        &vec![(
            0,
            vec![
                Content::Closure(("12345678".into(), "A".into()), "a".into()),
                Content::Text(" | ".into()),
                Content::Closure(("12345678".into(), "B".into()), "b".into())
            ]
        )]
    )
}

const NESTED: &str = "<a x (B)[b]<c y (^Q)[q]>\n>\n";

fn closure(id: &str, group: &str, text: &str) -> Content {
    Content::Closure((id.into(), group.into()), text.into())
}

#[test]
fn closures_resolve_to_their_rems() {
    let doc = Document::parse(NESTED).unwrap();
    let a = &doc.rems()[0];
    assert_eq!(a.id(), "a");
    assert_eq!(a.content(), &vec![Content::Text("x ".into()), closure("a", "B", "b")]);
    let c = &a.children()[0];
    assert_eq!(c.id(), "c");
    assert_eq!(c.content(), &vec![Content::Text("y ".into()), closure("a", "Q", "q")]);
    assert!(c.children().is_empty());
    assert_eq!(c.content()[1].group(), Some(("a".into(), "Q".into())));
    assert_eq!(c.content()[0].group(), None);
}

#[test]
fn document_parse_fails_on_malformed_text() {
    assert!(Document::parse("<a x").is_err());
}

#[test]
fn every_rem_sees_its_ancestors() {
    let deck = Deck::from(Document::parse(NESTED).unwrap());
    assert_eq!(deck.cards().len(), 2);
    let a = deck.cards().get("a").unwrap();
    assert_eq!(
        a.rems(),
        &vec![
            (0, vec![Content::Text("x ".into()), closure("a", "B", "b")]),
            (1, vec![closure("a", "Q", "q")]),
        ]
    );
    let c = deck.cards().get("c").unwrap();
    assert_eq!(
        c.rems(),
        &vec![
            (0, vec![Content::Text("x ".into()), closure("a", "B", "b")]),
            (1, vec![Content::Text("y ".into()), closure("a", "Q", "q")]),
        ]
    );
    assert_eq!(
        a.groups(),
        vec![("a".to_string(), "B".to_string()), ("a".to_string(), "Q".to_string())]
    );
    assert!(deck.cards().get("b").is_none());
}

#[test]
fn closure_of_an_ancestor_is_followed_by_an_ellipsis() {
    let deck = Deck::from(Document::parse("<a x<c (^Q)[q] z>\n>\n").unwrap());
    let a = deck.cards().get("a").unwrap();
    assert_eq!(
        a.rems(),
        &vec![
            (0, vec![Content::Text("x".into())]),
            (1, vec![closure("a", "Q", "q"), Content::Text(" ... ".into())]),
        ]
    );
    let c = deck.cards().get("c").unwrap();
    assert_eq!(
        c.rems(),
        &vec![
            (0, vec![Content::Text("x".into())]),
            (1, vec![closure("a", "Q", "q"), Content::Text(" z".into())]),
        ]
    );
}

#[test]
fn groups_are_listed_once() {
    let deck = Deck::from(Document::parse("<k (A)[a] (A)[b] (C)[c]>\n").unwrap());
    let k = deck.cards().get("k").unwrap();
    assert_eq!(
        k.groups(),
        vec![("k".to_string(), "A".to_string()), ("k".to_string(), "C".to_string())]
    );
}

#[test]
fn descendants_in_document_order() {
    let doc = Document::parse("<a x<b y<c z>\n>\n<d w>\n>\n").unwrap();
    assert_eq!(
        doc.rems()[0].descendants(),
        vec!["a".to_string(), "b".to_string(), "c".to_string(), "d".to_string()]
    );
}

#[test]
fn empty_document_has_no_cards() {
    let deck = Deck::from(Document::parse("").unwrap());
    assert_eq!(deck.cards().len(), 0);
}

#[test]
fn deck_of_a_text() {
    let deck = Deck::parse(NESTED);
    assert_eq!(deck.cards().len(), 2);
    assert_eq!(deck.cards().get("c").unwrap().rems().len(), 2);

    let mut cards = Cards::new();
    cards.extend_at("k".to_string(), (0, vec![Content::Text("t".into())]));
    cards.extend_at("k".to_string(), (1, vec![closure("k", "A", "a")]));
    let deck = Deck::from_cards(cards);
    let (id, card) = deck.cards().entry(0);
    assert_eq!(id, "k");
    assert_eq!(
        card.rems(),
        &vec![(0, vec![Content::Text("t".into())]), (1, vec![closure("k", "A", "a")])]
    );
}

#[test]
fn cards_are_listed_by_id() {
    let deck = Deck::parse("<m x (A)[a]>\n<b y (B)[b]>\n<k z>\n");
    let cards = deck.cards();
    assert_eq!(cards.len(), 3);
    let ids: Vec<String> = (0..cards.len()).map(|i| cards.entry(i).0.clone()).collect();
    assert_eq!(ids, vec!["b".to_string(), "k".to_string(), "m".to_string()]);

    let mut cards = Cards::new();
    cards.extend_at("z".to_string(), (0, vec![Content::Text("1".into())]));
    cards.extend_at("a".to_string(), (0, vec![Content::Text("2".into())]));
    cards.extend_at("z".to_string(), (1, vec![Content::Text("3".into())]));
    assert_eq!(cards.len(), 2);
    assert_eq!(cards.entry(0).0, "a");
    assert_eq!(cards.entry(1).0, "z");
    assert_eq!(cards.get("z").unwrap().rems().len(), 2);
}
