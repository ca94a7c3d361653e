use remedy::document::parser::{parse, Content};

#[test]
fn parse_single_rem() {
    let doc = parse("<a hello>\n").unwrap();
    let rems = doc.rems_iter();
    assert_eq!(rems.len(), 1);
    assert_eq!(rems[0].id(), "a");
    assert_eq!(rems[0].content_iter().len(), 1);
    assert_eq!(rems[0].content_iter()[0].text(), "hello");
    assert_eq!(rems[0].content_iter()[0].closure(), Err(String::from("hello")));
    assert!(rems[0].children_iter().is_empty());
}

#[test]
fn parse_empty_document() {
    let doc = parse("").unwrap();
    assert!(doc.rems_iter().is_empty());
}

#[test]
fn parse_nested_rems_and_locations() {
    let doc = parse("<a x (B)[b]<c y (^Q)[q]>\n>\n").unwrap();
    let a = &doc.rems_iter()[0];
    assert_eq!(a.id(), "a");
    assert_eq!(a.content_iter().len(), 2);
    assert_eq!(a.content_iter()[0].text(), "x ");
    assert_eq!(
        a.content_iter()[1].closure(),
        Ok((0, String::from("B"), String::from("b")))
    );
    let c = &a.children_iter()[0];
    assert_eq!(c.id(), "c");
    assert_eq!(
        c.content_iter()[1].closure(),
        Ok((1, String::from("Q"), String::from("q")))
    );
    assert!(doc.locations_resolve());
}

#[test]
fn parse_two_rems_with_multiline_text() {
    let doc = parse("<a one\ntwo>\n<b three>\n").unwrap();
    let rems = doc.rems_iter();
    assert_eq!(rems.len(), 2);
    assert_eq!(rems[0].content_iter()[0].text(), "one\ntwo");
    assert_eq!(rems[1].id(), "b");
}

#[test]
fn parse_rejects_malformed_text() {
    assert!(parse("<a x>").is_err());
    assert!(parse("<a x").is_err());
    assert!(parse("<>\n").is_err());
    assert!(parse("<a (B)[]>\n").is_err());
    assert!(parse("<a ()[b]>\n").is_err());
    assert!(parse("<a x ] y>\n").is_err());
    assert!(parse("hello\n").is_err());
    assert!(parse("<a-b x>\n").is_err());
}

#[test]
fn location_beyond_the_top_does_not_resolve() {
    let doc = parse("<a (^Q)[q]>\n").unwrap();
    assert!(!doc.locations_resolve());
    let doc = parse("<a <c (^^Q)[q]>\n>\n").unwrap();
    assert!(!doc.locations_resolve());
    let doc = parse("<a <c (^Q)[q]>\n>\n").unwrap();
    assert!(doc.locations_resolve());
}

#[test]
fn contents_built_and_read_back() {
    let c = Content::to_closure(2, String::from("G"), String::from("t"));
    assert_eq!(c.closure(), Ok((2, String::from("G"), String::from("t"))));
    assert_eq!(c.text(), "t");
    let t = Content::to_text(String::from("plain"));
    assert_eq!(t.closure(), Err(String::from("plain")));
    assert_eq!(t.text(), "plain");
    assert_eq!(c.duplicate(), c);
}
