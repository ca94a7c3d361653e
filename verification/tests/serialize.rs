use remedy::document::parser::parse;
use remedy::serialize::Segment;

fn visible(s: &str) -> Segment {
    Segment::Visible(s.to_string())
}

fn hidden(s: &str) -> Segment {
    Segment::Hidden(s.to_string())
}

#[test]
fn gathered_contents_of_nested_rems() {
    let doc = parse("<a x (B)[b]<c y (^Q)[q]>\n>\n").unwrap();
    let map = doc.content_map();
    assert_eq!(map.len(), 2);
    let mut seen = 0;
    for i in 0..map.len() {
        let (id, contents) = map.entry(i);
        let shown: Vec<_> = contents.iter().map(|c| c.closure()).collect();
        if id == "a" {
            seen += 1;
            assert_eq!(
                shown,
                vec![
                    Ok((0, "Q".to_string(), "q".to_string())),
                    Err("x ".to_string()),
                    Ok((0, "B".to_string(), "b".to_string())),
                ]
            );
        } else {
            seen += 1;
            assert_eq!(id, "c");
            assert_eq!(
                shown,
                vec![
                    Err("y ".to_string()),
                    Ok((1, "Q".to_string(), "q".to_string())),
                    Err("x ".to_string()),
                    Ok((1, "B".to_string(), "b".to_string())),
                ]
            );
        }
    }
    assert_eq!(seen, 2);
}

#[test]
fn one_card_per_rem_location_and_group() {
    let doc = parse("<a x (B)[b]<c y (^Q)[q]>\n>\n").unwrap();
    let cards = doc.serialize();
    assert_eq!(cards.len(), 4);
    assert_eq!(
        cards.get("a", 0, "Q").unwrap(),
        &vec![hidden("q"), visible("x "), visible("b")]
    );
    assert_eq!(
        cards.get("a", 0, "B").unwrap(),
        &vec![visible("q"), visible("x "), hidden("b")]
    );
    assert_eq!(
        cards.get("c", 1, "Q").unwrap(),
        &vec![visible("y "), hidden("q"), visible("x "), visible("b")]
    );
    assert_eq!(
        cards.get("c", 1, "B").unwrap(),
        &vec![visible("y "), visible("q"), visible("x "), hidden("b")]
    );
    assert!(cards.get("c", 0, "B").is_none());
    assert!(cards.get("a", 0, "Z").is_none());
}

#[test]
fn closures_of_one_group_hide_together() {
    let doc = parse("<k (A)[one] and (A)[two] or (C)[three]>\n").unwrap();
    let cards = doc.serialize();
    assert_eq!(cards.len(), 2);
    assert_eq!(
        cards.get("k", 0, "A").unwrap(),
        &vec![hidden("one"), visible(" and "), hidden("two"), visible(" or "), visible("three")]
    );
    assert_eq!(
        cards.get("k", 0, "C").unwrap(),
        &vec![visible("one"), visible(" and "), visible("two"), visible(" or "), hidden("three")]
    );
}

#[test]
fn text_alone_makes_no_card() {
    let doc = parse("<k just text>\n").unwrap();
    assert_eq!(doc.serialize().len(), 0);
}

#[test]
fn every_card_is_listed_once() {
    let doc = parse("<k (A)[one] (A)[two]>\n").unwrap();
    let cards = doc.serialize();
    assert_eq!(cards.len(), 1);
    let (key, segments) = cards.entry(0);
    assert_eq!(key, &("k".to_string(), 0, "A".to_string()));
    assert_eq!(segments, &vec![hidden("one"), visible(" "), hidden("two")]);
}

#[test]
fn cards_are_listed_by_rem_location_and_group() {
    let doc = parse("<a x (Q)[q] (B)[b]<c y (^Z)[z]>\n>\n").unwrap();
    let cards = doc.serialize();
    let keys: Vec<(String, usize, String)> = (0..cards.len()).map(|i| cards.entry(i).0.clone()).collect();
    assert_eq!(
        keys,
        vec![
            ("a".to_string(), 0, "B".to_string()),
            ("a".to_string(), 0, "Q".to_string()),
            ("a".to_string(), 0, "Z".to_string()),
            ("c".to_string(), 1, "B".to_string()),
            ("c".to_string(), 1, "Q".to_string()),
            ("c".to_string(), 1, "Z".to_string()),
        ]
    );
}

#[test]
fn gathered_lists_are_listed_by_rem() {
    let doc = parse("<z x>\n<b y>\n").unwrap();
    let map = doc.content_map();
    assert_eq!(map.len(), 2);
    assert_eq!(map.entry(0).0, "b");
    assert_eq!(map.entry(1).0, "z");
}
