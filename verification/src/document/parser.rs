//! Reading a document's text into its syntax tree.
use vstd::prelude::*;
use crate::document::grammar::{
    SpecContent, SpecRem, caret_class, group_class, id_class, is_caret, is_group_char,
    is_id_char, is_text_char, lemma_parse_document, parse_closure, parse_contents,
    parse_document, parse_rem, parse_rems, render_rems, scan, text_class, wf_rems,
};
use crate::text::{chars_of, string_of};

verus! {

/// A document: its top-level rems, in order.
#[derive(Debug)]
pub struct Document {
    rems: Vec<Rem>,
}

/// A rem: its id, its contents and the rems nested in it.
#[derive(Debug)]
pub struct Rem {
    id: Id,
    content: Vec<Content>,
    children: Vec<Rem>,
}

#[derive(Debug)]
pub struct Id(pub String);

#[derive(Debug, PartialEq, Eq)]
pub enum Content {
    Text(Text),
    Closure(Closure),
}

#[derive(Debug, PartialEq, Eq)]
pub struct Text(pub String);

/// A closure: text hidden on a card, belonging to the rem `location` levels up.
#[derive(Debug, PartialEq, Eq)]
pub struct Closure {
    location: Location,
    group: Group,
    text: Text,
}

#[derive(Debug, PartialEq, Eq)]
pub struct Location(pub usize);

#[derive(Debug, PartialEq, Eq)]
pub struct Group(pub String);

/// The text is not a document.
#[derive(Debug, Clone, Copy, PartialEq, Eq)]
pub struct ParseError;

impl View for Content {
    type V = SpecContent;

    closed spec fn view(&self) -> SpecContent {
        match self {
            Content::Text(t) => SpecContent::Text(t.0@),
            Content::Closure(c) => SpecContent::Closure {
                location: c.location.0 as nat,
                group: c.group.0@,
                text: c.text.0@,
            },
        }
    }
}

pub open spec fn contents_view(cs: Seq<Content>) -> Seq<SpecContent> {
    Seq::new(cs.len(), |i: int| cs[i]@)
}

pub closed spec fn rem_view(r: Rem) -> SpecRem
    decreases r,
{
    SpecRem {
        id: r.id.0@,
        content: contents_view(r.content@),
        children: Seq::new(
            r.children@.len(),
            |i: int|
                if 0 <= i < r.children@.len() {
                    rem_view(r.children@[i])
                } else {
                    SpecRem { id: seq![], content: seq![], children: seq![] }
                },
        ),
    }
}

pub open spec fn rems_view(rs: Seq<Rem>) -> Seq<SpecRem> {
    Seq::new(rs.len(), |i: int| rem_view(rs[i]))
}

impl View for Rem {
    type V = SpecRem;

    open spec fn view(&self) -> SpecRem {
        rem_view(*self)
    }
}

impl View for Document {
    type V = Seq<SpecRem>;

    closed spec fn view(&self) -> Seq<SpecRem> {
        rems_view(self.rems@)
    }
}

proof fn lemma_rem_view(r: Rem)
    ensures
        rem_view(r) == (SpecRem {
            id: r.id.0@,
            content: contents_view(r.content@),
            children: rems_view(r.children@),
        }),
{
    assert(rem_view(r).children =~= rems_view(r.children@));
}

impl Document {
    /// A document is read from a text, so the text it is written as fits in memory.
    #[verifier::type_invariant]
    closed spec fn written_in_memory(&self) -> bool {
        render_rems(rems_view(self.rems@)).len() <= usize::MAX
    }

    /// The top-level rems.
    pub fn rems_iter(&self) -> (rems: &Vec<Rem>)
        ensures
            rems_view(rems@) == self@,
            render_rems(self@).len() <= usize::MAX,
    {
        proof {
            use_type_invariant(self);
        }
        &self.rems
    }
}

impl Rem {
    pub fn id(&self) -> (id: String)
        ensures
            id@ == self@.id,
    {
        proof {
            lemma_rem_view(*self);
        }
        self.id.0.clone()
    }

    pub fn content_iter(&self) -> (content: &Vec<Content>)
        ensures
            contents_view(content@) == self@.content,
    {
        proof {
            lemma_rem_view(*self);
        }
        &self.content
    }

    pub fn children_iter(&self) -> (children: &Vec<Rem>)
        ensures
            rems_view(children@) == self@.children,
    {
        proof {
            lemma_rem_view(*self);
        }
        &self.children
    }
}

impl Content {
    /// The text of the content, hidden or not.
    pub fn text(&self) -> (text: String)
        ensures
            text@ == match self@ {
                SpecContent::Text(t) => t,
                SpecContent::Closure { text, .. } => text,
            },
    {
        match self {
            Content::Text(Text(text)) => text.clone(),
            Content::Closure(Closure { text: Text(text), .. }) => text.clone(),
        }
    }

    /// The location, group and text of a closure; the text of plain text.
    pub fn closure(&self) -> (res: Result<(usize, String, String), String>)
        ensures
            match (self@, res) {
                (SpecContent::Closure { location, group, text }, Ok((l, g, t))) => l == location
                    && g@ == group && t@ == text,
                (SpecContent::Text(t), Err(e)) => e@ == t,
                _ => false,
            },
    {
        match self {
            Content::Closure(Closure { location: Location(location), group: Group(group), text: Text(text) }) => Ok((*location, group.clone(), text.clone())),
            Content::Text(Text(text)) => Err(text.clone()),
        }
    }

    pub fn to_closure(location: usize, group: String, text: String) -> (c: Content)
        ensures
            c@ == (SpecContent::Closure { location: location as nat, group: group@, text: text@ }),
    {
        Content::Closure(Closure { location: Location(location), group: Group(group), text: Text(text) })
    }

    pub fn to_text(text: String) -> (c: Content)
        ensures
            c@ == SpecContent::Text(text@),
    {
        Content::Text(Text(text))
    }

    /// A copy of the content.
    pub fn duplicate(&self) -> (c: Content)
        ensures
            c@ == self@,
    {
        match self {
            Content::Text(Text(text)) => Content::Text(Text(text.clone())),
            Content::Closure(Closure { location: Location(location), group: Group(group), text: Text(text) }) => Content::Closure(Closure { location: Location(*location), group: Group(group.clone()), text: Text(text.clone()) }),
        }
    }
}


// ------------------------------------------------------------------------
// The parser
// ------------------------------------------------------------------------

/// Reads a document.  It succeeds exactly on the texts that are written as
/// well-formed rems, and then gives back those rems.
pub fn parse(input: &str) -> (res: Result<Document, ParseError>)
    ensures
        match res {
            Ok(doc) => wf_rems(doc@) && render_rems(doc@) == input@,
            Err(_) => forall|rs: Seq<SpecRem>| wf_rems(rs) ==> render_rems(rs) != input@,
        },
{
    let chars = chars_of(input);
    let len = chars.len();
    let res = match parse_rems_exec(&chars, 0) {
        Some((rems, end)) => if end == len {
            proof {
                lemma_parse_document(input@, rems_view(rems@));
            }
            Ok(Document { rems })
        } else {
            Err(ParseError)
        },
        None => Err(ParseError),
    };
    proof {
        match &res {
            Ok(doc) => {
                lemma_parse_document(input@, doc@);
            },
            Err(_) => {
                assert forall|rs: Seq<SpecRem>| wf_rems(rs) implies render_rems(rs) != input@ by {
                    lemma_parse_document(input@, rs);
                }
            },
        }
    }
    res
}

enum Class {
    Caret,
    Id,
    Group,
    Text,
}

spec fn class_fn(k: Class) -> spec_fn(char) -> bool {
    match k {
        Class::Caret => caret_class(),
        Class::Id => id_class(),
        Class::Group => group_class(),
        Class::Text => text_class(),
    }
}

fn in_class(c: char, k: &Class) -> (r: bool)
    ensures
        r == class_fn(*k)(c),
{
    match k {
        Class::Caret => c == '^',
        Class::Id => ('0' <= c && c <= '9') || ('a' <= c && c <= 'z') || ('A' <= c && c <= 'Z'),
        Class::Group => !(c == '(' || c == ')' || c == '[' || c == ']' || c == '<' || c == '>')
            && c != '^' && c != '\n',
        Class::Text => !(c == '(' || c == ')' || c == '[' || c == ']' || c == '<' || c == '>'),
    }
}

fn scan_exec(s: &Vec<char>, pos: usize, k: Class) -> (e: usize)
    requires
        pos <= s@.len(),
    ensures
        e as int == scan(s@, pos as int, class_fn(k)),
        pos <= e <= s@.len(),
{
    let mut i = pos;
    while i < s.len() && in_class(s[i], &k)
        invariant
            pos <= i <= s@.len(),
            scan(s@, pos as int, class_fn(k)) == scan(s@, i as int, class_fn(k)),
        decreases s@.len() - i,
    {
        i = i + 1;
    }
    i
}

fn parse_closure_exec(s: &Vec<char>, pos: usize) -> (res: Option<(Content, usize)>)
    requires
        pos <= s@.len(),
    ensures
        match res {
            Some((c, e)) => parse_closure(s@, pos as int) == Some((c@, e as int)),
            None => parse_closure(s@, pos as int) is None,
        },
{
    if pos < s.len() && s[pos] == '(' {
        let b = scan_exec(s, pos + 1, Class::Caret);
        let c = scan_exec(s, b, Class::Group);
        if b < c && c < s.len() && c + 1 < s.len() && s[c] == ')' && s[c + 1] == '[' {
            let d = scan_exec(s, c + 2, Class::Text);
            if c + 2 < d && d < s.len() && s[d] == ']' {
                let group = string_of(s, b, c);
                let text = string_of(s, c + 2, d);
                let content = Content::to_closure(b - (pos + 1), group, text);
                Some((content, d + 1))
            } else {
                None
            }
        } else {
            None
        }
    } else {
        None
    }
}

spec fn prepend(xs: Seq<SpecContent>, rest: Option<(Seq<SpecContent>, int)>) -> Option<
    (Seq<SpecContent>, int),
> {
    match rest {
        Some((cs, f)) => Some((xs + cs, f)),
        None => None,
    }
}

fn parse_contents_exec(s: &Vec<char>, pos: usize) -> (res: Option<(Vec<Content>, usize)>)
    requires
        pos <= s@.len(),
    ensures
        match res {
            Some((cs, e)) => parse_contents(s@, pos as int) == Some((contents_view(cs@), e as int))
                && pos <= e <= s@.len(),
            None => parse_contents(s@, pos as int) is None,
        },
{
    let mut acc: Vec<Content> = Vec::new();
    let mut i = pos;
    loop
        invariant
            pos <= i <= s@.len(),
            parse_contents(s@, pos as int) == prepend(contents_view(acc@), parse_contents(s@, i as int)),
        decreases s@.len() - i,
    {
        if i < s.len() && s[i] == '(' {
            match parse_closure_exec(s, i) {
                Some((c, e)) => {
                    if !(i < e) {
                        return None;
                    }
                    let ghost old_acc = contents_view(acc@);
                    let ghost cv = c@;
                    acc.push(c);
                    proof {
                        assert(contents_view(acc@) =~= old_acc.push(cv));
                        match parse_contents(s@, e as int) {
                            Some((cs, f)) => {
                                assert(old_acc + (seq![cv] + cs) =~= old_acc.push(cv) + cs);
                            },
                            None => {},
                        }
                    }
                    i = e;
                },
                None => {
                    return None;
                },
            }
        } else if i < s.len() && in_class(s[i], &Class::Text) {
            let e = scan_exec(s, i, Class::Text);
            if !(i < e) {
                return None;
            }
            let t = string_of(s, i, e);
            let c = Content::to_text(t);
            let ghost old_acc = contents_view(acc@);
            let ghost cv = c@;
            acc.push(c);
            proof {
                assert(contents_view(acc@) =~= old_acc.push(cv));
                match parse_contents(s@, e as int) {
                    Some((cs, f)) => {
                        assert(old_acc + (seq![cv] + cs) =~= old_acc.push(cv) + cs);
                    },
                    None => {},
                }
            }
            i = e;
        } else {
            proof {
                assert(contents_view(acc@) + Seq::<SpecContent>::empty() =~= contents_view(acc@));
            }
            return Some((acc, i));
        }
    }
}

fn parse_rem_exec(s: &Vec<char>, pos: usize) -> (res: Option<(Rem, usize)>)
    requires
        pos <= s@.len(),
    ensures
        match res {
            Some((r, e)) => parse_rem(s@, pos as int) == Some((r@, e as int)) && pos < e,
            None => parse_rem(s@, pos as int) is None,
        },
    decreases s@.len() - pos, 0int,
{
    if pos < s.len() && s[pos] == '<' {
        let a = scan_exec(s, pos + 1, Class::Id);
        if pos + 1 < a && a < s.len() && s[a] == ' ' {
            match parse_contents_exec(s, a + 1) {
                Some((content, b)) => {
                    if !(pos < b) {
                        return None;
                    }
                    match parse_rems_exec(s, b) {
                        Some((children, e)) => {
                            if e < s.len() && s[e] == '>' {
                                let id = Id(string_of(s, pos + 1, a));
                                let r = Rem { id, content, children };
                                proof {
                                    lemma_rem_view(r);
                                }
                                Some((r, e + 1))
                            } else {
                                None
                            }
                        },
                        None => None,
                    }
                },
                None => None,
            }
        } else {
            None
        }
    } else {
        None
    }
}

spec fn prepend_rems(xs: Seq<SpecRem>, rest: Option<(Seq<SpecRem>, int)>) -> Option<
    (Seq<SpecRem>, int),
> {
    match rest {
        Some((rs, f)) => Some((xs + rs, f)),
        None => None,
    }
}

fn parse_rems_exec(s: &Vec<char>, pos: usize) -> (res: Option<(Vec<Rem>, usize)>)
    requires
        pos <= s@.len(),
    ensures
        match res {
            Some((rs, e)) => parse_rems(s@, pos as int) == Some((rems_view(rs@), e as int))
                && pos <= e <= s@.len(),
            None => parse_rems(s@, pos as int) is None,
        },
    decreases s@.len() - pos, 1int,
{
    let mut acc: Vec<Rem> = Vec::new();
    let mut i = pos;
    loop
        invariant
            pos <= i <= s@.len(),
            parse_rems(s@, pos as int) == prepend_rems(rems_view(acc@), parse_rems(s@, i as int)),
        decreases s@.len() - i,
    {
        if i < s.len() && s[i] == '<' {
            match parse_rem_exec(s, i) {
                Some((r, e)) => {
                    if e < s.len() && s[e] == '\n' {
                        let ghost old_acc = rems_view(acc@);
                        let ghost rv = r@;
                        acc.push(r);
                        proof {
                            assert(rems_view(acc@) =~= old_acc.push(rv));
                            match parse_rems(s@, e + 1) {
                                Some((rs, f)) => {
                                    assert(old_acc + (seq![rv] + rs) =~= old_acc.push(rv) + rs);
                                },
                                None => {},
                            }
                        }
                        i = e + 1;
                    } else {
                        return None;
                    }
                },
                None => {
                    return None;
                },
            }
        } else {
            proof {
                assert(rems_view(acc@) + Seq::<SpecRem>::empty() =~= rems_view(acc@));
            }
            return Some((acc, i));
        }
    }
}


// ------------------------------------------------------------------------
// Locations
// ------------------------------------------------------------------------

/// Every closure of `r`, a rem at `depth` (0 at the top), belongs to `r` or to
/// one of its ancestors.
pub open spec fn resolvable_rem(r: SpecRem, depth: nat) -> bool
    decreases r,
{
    &&& forall|i: int|
        0 <= i < r.content.len() ==> (#[trigger] r.content[i] matches SpecContent::Closure {
            location,
            ..
        } ==> location <= depth)
    &&& forall|i: int|
        0 <= i < r.children.len() ==> resolvable_rem(#[trigger] r.children[i], depth + 1)
}

pub open spec fn resolvable_rems(rs: Seq<SpecRem>, depth: nat) -> bool {
    forall|i: int| 0 <= i < rs.len() ==> resolvable_rem(#[trigger] rs[i], depth)
}

proof fn lemma_deep_resolvable(r: Rem, depth: nat)
    requires
        depth >= usize::MAX,
    ensures
        resolvable_rem(r@, depth),
    decreases r,
{
    lemma_rem_view(r);
    assert forall|i: int| 0 <= i < r@.children.len() implies resolvable_rem(
        #[trigger] r@.children[i],
        depth + 1,
    ) by {
        lemma_deep_resolvable(r.children@[i], depth + 1);
    }
}

fn rem_resolvable(r: &Rem, depth: usize) -> (ok: bool)
    ensures
        ok == resolvable_rem(r@, depth as nat),
    decreases r@,
{
    proof {
        lemma_rem_view(*r);
    }
    let content = r.content_iter();
    let mut i: usize = 0;
    while i < content.len()
        invariant
            0 <= i <= content@.len(),
            contents_view(content@) == r@.content,
            forall|j: int|
                0 <= j < i ==> (#[trigger] r@.content[j] matches SpecContent::Closure {
                    location,
                    ..
                } ==> location <= depth),
        decreases content@.len() - i,
    {
        match content[i].closure() {
            Ok((location, _, _)) => {
                if location > depth {
                    assert(r@.content[i as int] == content@[i as int]@);
                    return false;
                }
            },
            Err(_) => {},
        }
        i = i + 1;
    }
    if depth == usize::MAX {
        // every location fits in a `usize`, so nothing below this depth can reach too far
        proof {
            assert forall|j: int| 0 <= j < r@.children.len() implies resolvable_rem(
                #[trigger] r@.children[j],
                depth as nat + 1,
            ) by {
                lemma_deep_resolvable(r.children@[j], depth as nat + 1);
            }
        }
        return true;
    }
    let children = r.children_iter();
    let mut k: usize = 0;
    while k < children.len()
        invariant
            0 <= k <= children@.len(),
            depth < usize::MAX,
            rems_view(children@) == r@.children,
            forall|j: int| 0 <= j < i ==> (#[trigger] r@.content[j] matches SpecContent::Closure {
                    location,
                    ..
                } ==> location <= depth),
            i == r@.content.len(),
            forall|j: int| 0 <= j < k ==> resolvable_rem(#[trigger] r@.children[j], depth as nat + 1),
        decreases children@.len() - k,
    {
        assert(decreases_to!(r@ => r@.children[k as int]));
        if !rem_resolvable(&children[k], depth + 1) {
            return false;
        }
        k = k + 1;
    }
    true
}

impl Document {
    /// Whether every closure of the document belongs to its own rem or to an
    /// ancestor of it.
    pub fn locations_resolve(&self) -> (ok: bool)
        ensures
            ok == resolvable_rems(self@, 0),
    {
        let rems = self.rems_iter();
        let mut i: usize = 0;
        while i < rems.len()
            invariant
                0 <= i <= rems@.len(),
                rems_view(rems@) == self@,
                forall|j: int| 0 <= j < i ==> resolvable_rem(#[trigger] self@[j], 0),
            decreases rems@.len() - i,
        {
            if !rem_resolvable(&rems[i], 0) {
                assert(self@[i as int] == rems@[i as int]@);
                return false;
            }
            i = i + 1;
        }
        true
    }
}

} // verus!
