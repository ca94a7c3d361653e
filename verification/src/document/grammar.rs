//! The text format of a document: its grammar, and what a well-formed tree
//! is written as.
//!
//! A document is a sequence of rems, each written on a line of its own:
//!
//! ```text
//! document := (rem '\n')*
//! rem      := '<' id ' ' content* (rem '\n')* '>'
//! content  := closure | text
//! closure  := '(' '^'* group ')' '[' text ']'
//! id       := [0-9A-Za-z]+
//! group    := one or more characters other than ( ) [ ] < > ^ and newline
//! text     := one or more characters other than ( ) [ ] < >
//! ```
//!
//! The number of carets in a closure is its location: how many rems up from the
//! enclosing one the closure belongs to.  Text runs are maximal, so a well-formed
//! tree never holds two text contents side by side.
use vstd::prelude::*;

verus! {

// ------------------------------------------------------------------------
// Character classes
// ------------------------------------------------------------------------

/// The characters that delimit rems and closures.
pub open spec fn is_special(c: char) -> bool {
    c == '(' || c == ')' || c == '[' || c == ']' || c == '<' || c == '>'
}

pub open spec fn is_text_char(c: char) -> bool {
    !is_special(c)
}

pub open spec fn is_id_char(c: char) -> bool {
    ('0' <= c && c <= '9') || ('a' <= c && c <= 'z') || ('A' <= c && c <= 'Z')
}

pub open spec fn is_group_char(c: char) -> bool {
    !is_special(c) && c != '^' && c != '\n'
}

pub open spec fn is_caret(c: char) -> bool {
    c == '^'
}

pub open spec fn caret_class() -> spec_fn(char) -> bool {
    |c: char| is_caret(c)
}

pub open spec fn id_class() -> spec_fn(char) -> bool {
    |c: char| is_id_char(c)
}

pub open spec fn group_class() -> spec_fn(char) -> bool {
    |c: char| is_group_char(c)
}

pub open spec fn text_class() -> spec_fn(char) -> bool {
    |c: char| is_text_char(c)
}

/// Every character of `s` belongs to the class `p`.
pub open spec fn all_chars(s: Seq<char>, p: spec_fn(char) -> bool) -> bool {
    forall|i: int| 0 <= i < s.len() ==> #[trigger] p(s[i])
}

// ------------------------------------------------------------------------
// The abstract syntax tree
// ------------------------------------------------------------------------

pub enum SpecContent {
    Text(Seq<char>),
    Closure { location: nat, group: Seq<char>, text: Seq<char> },
}

pub struct SpecRem {
    pub id: Seq<char>,
    pub content: Seq<SpecContent>,
    pub children: Seq<SpecRem>,
}

// ------------------------------------------------------------------------
// Rendering: the text that a tree is written as
// ------------------------------------------------------------------------

pub open spec fn carets(n: nat) -> Seq<char>
    decreases n,
{
    if n == 0 {
        seq![]
    } else {
        seq!['^'] + carets((n - 1) as nat)
    }
}

pub open spec fn render_content(c: SpecContent) -> Seq<char> {
    match c {
        SpecContent::Text(t) => t,
        SpecContent::Closure { location, group, text } => seq!['('] + carets(location) + group
            + seq![')', '['] + text + seq![']'],
    }
}

pub open spec fn render_contents(cs: Seq<SpecContent>) -> Seq<char>
    decreases cs.len(),
{
    if cs.len() == 0 {
        seq![]
    } else {
        render_content(cs[0]) + render_contents(cs.drop_first())
    }
}

pub open spec fn render_rem(r: SpecRem) -> Seq<char>
    decreases r,
{
    seq!['<'] + r.id + seq![' '] + render_contents(r.content) + render_rems(r.children) + seq![
        '>',
    ]
}

/// Rems one after the other, each followed by a newline.
pub open spec fn render_rems(rs: Seq<SpecRem>) -> Seq<char>
    decreases rs,
{
    if rs.len() == 0 {
        seq![]
    } else {
        render_rem(rs[0]) + seq!['\n'] + render_rems(rs.drop_first())
    }
}

// ------------------------------------------------------------------------
// Well-formed trees: those that the grammar can produce
// ------------------------------------------------------------------------

pub open spec fn wf_text(t: Seq<char>) -> bool {
    t.len() > 0 && all_chars(t, text_class())
}

pub open spec fn wf_content(c: SpecContent) -> bool {
    match c {
        SpecContent::Text(t) => wf_text(t),
        SpecContent::Closure { location, group, text } => group.len() > 0 && all_chars(
            group,
            group_class(),
        ) && wf_text(text),
    }
}

pub open spec fn wf_contents(cs: Seq<SpecContent>) -> bool {
    &&& forall|i: int| 0 <= i < cs.len() ==> #[trigger] wf_content(cs[i])
    &&& forall|i: int|
        0 <= i < cs.len() - 1 ==> !(#[trigger] cs[i] is Text && cs[i + 1] is Text)
}

pub open spec fn wf_id(id: Seq<char>) -> bool {
    id.len() > 0 && all_chars(id, id_class())
}

pub open spec fn wf_rem(r: SpecRem) -> bool
    decreases r,
{
    wf_id(r.id) && wf_contents(r.content) && wf_rems(r.children)
}

pub open spec fn wf_rems(rs: Seq<SpecRem>) -> bool
    decreases rs,
{
    if rs.len() == 0 {
        true
    } else {
        wf_rem(rs[0]) && wf_rems(rs.drop_first())
    }
}

// ------------------------------------------------------------------------
// The grammar, read from left to right
// ------------------------------------------------------------------------

/// The end of the longest run of characters of class `p` that starts at `pos`.
pub open spec fn scan(s: Seq<char>, pos: int, p: spec_fn(char) -> bool) -> int
    decreases s.len() - pos,
{
    if 0 <= pos < s.len() && p(s[pos]) {
        scan(s, pos + 1, p)
    } else {
        pos
    }
}

pub open spec fn parse_closure(s: Seq<char>, pos: int) -> Option<(SpecContent, int)> {
    if 0 <= pos < s.len() && s[pos] == '(' {
        let b = scan(s, pos + 1, caret_class());
        let c = scan(s, b, group_class());
        if b < c && c + 1 < s.len() && s[c] == ')' && s[c + 1] == '[' {
            let d = scan(s, c + 2, text_class());
            if c + 2 < d < s.len() && s[d] == ']' {
                Some(
                    (
                        SpecContent::Closure {
                            location: (b - (pos + 1)) as nat,
                            group: s.subrange(b, c),
                            text: s.subrange(c + 2, d),
                        },
                        d + 1,
                    ),
                )
            } else {
                None
            }
        } else {
            None
        }
    } else {
        None
    }
}

pub open spec fn parse_contents(s: Seq<char>, pos: int) -> Option<(Seq<SpecContent>, int)>
    decreases s.len() - pos,
{
    if 0 <= pos < s.len() && s[pos] == '(' {
        match parse_closure(s, pos) {
            Some((c, e)) => if pos < e {
                match parse_contents(s, e) {
                    Some((cs, f)) => Some((seq![c] + cs, f)),
                    None => None,
                }
            } else {
                None
            },
            None => None,
        }
    } else if 0 <= pos < s.len() && is_text_char(s[pos]) {
        let e = scan(s, pos, text_class());
        if pos < e <= s.len() {
            match parse_contents(s, e) {
                Some((cs, f)) => Some((seq![SpecContent::Text(s.subrange(pos, e))] + cs, f)),
                None => None,
            }
        } else {
            None
        }
    } else {
        Some((seq![], pos))
    }
}

pub open spec fn parse_rem(s: Seq<char>, pos: int) -> Option<(SpecRem, int)>
    decreases s.len() - pos, 0int,
{
    if 0 <= pos < s.len() && s[pos] == '<' {
        let a = scan(s, pos + 1, id_class());
        if pos + 1 < a < s.len() && s[a] == ' ' {
            match parse_contents(s, a + 1) {
                Some((cs, b)) => if pos < b <= s.len() {
                    match parse_rems(s, b) {
                        Some((rs, e)) => if 0 <= e < s.len() && s[e] == '>' {
                            Some(
                                (SpecRem { id: s.subrange(pos + 1, a), content: cs, children: rs }, e
                                    + 1),
                            )
                        } else {
                            None
                        },
                        None => None,
                    }
                } else {
                    None
                },
                None => None,
            }
        } else {
            None
        }
    } else {
        None
    }
}

pub open spec fn parse_rems(s: Seq<char>, pos: int) -> Option<(Seq<SpecRem>, int)>
    decreases s.len() - pos, 1int,
{
    if 0 <= pos < s.len() && s[pos] == '<' {
        match parse_rem(s, pos) {
            Some((r, e)) => if pos < e < s.len() && s[e] == '\n' {
                match parse_rems(s, e + 1) {
                    Some((rs, f)) => Some((seq![r] + rs, f)),
                    None => None,
                }
            } else {
                None
            },
            None => None,
        }
    } else {
        Some((seq![], pos))
    }
}

/// The rems of a whole document, if the text is one.
pub open spec fn parse_document(s: Seq<char>) -> Option<Seq<SpecRem>> {
    match parse_rems(s, 0) {
        Some((rs, e)) => if e == s.len() {
            Some(rs)
        } else {
            None
        },
        None => None,
    }
}


// ------------------------------------------------------------------------
// Facts about scanning
// ------------------------------------------------------------------------

/// `x` is written in `s` from position `pos` on.
pub open spec fn occurs_at(s: Seq<char>, pos: int, x: Seq<char>) -> bool {
    0 <= pos && pos + x.len() <= s.len() && s.subrange(pos, pos + x.len()) == x
}

pub proof fn lemma_occurs_concat(s: Seq<char>, pos: int, a: Seq<char>, b: Seq<char>)
    ensures
        occurs_at(s, pos, a + b) <==> (occurs_at(s, pos, a) && occurs_at(s, pos + a.len(), b)),
{
    if occurs_at(s, pos, a + b) {
        let w = s.subrange(pos, pos + a.len() + b.len());
        assert(w == a + b);
        assert(s.subrange(pos, pos + a.len()) =~= w.subrange(0, a.len() as int));
        assert(w.subrange(0, a.len() as int) =~= a);
        assert(s.subrange(pos + a.len(), pos + a.len() + b.len()) =~= w.subrange(
            a.len() as int,
            (a.len() + b.len()) as int,
        ));
        assert(w.subrange(a.len() as int, (a.len() + b.len()) as int) =~= b);
    }
    if occurs_at(s, pos, a) && occurs_at(s, pos + a.len(), b) {
        assert(s.subrange(pos, pos + (a + b).len()) =~= s.subrange(pos, pos + a.len())
            + s.subrange(pos + a.len(), pos + a.len() + b.len()));
    }
}

pub proof fn lemma_scan_bounds(s: Seq<char>, pos: int, p: spec_fn(char) -> bool)
    requires
        0 <= pos <= s.len(),
    ensures
        pos <= scan(s, pos, p) <= s.len(),
        forall|i: int| pos <= i < scan(s, pos, p) ==> #[trigger] p(s[i]),
        scan(s, pos, p) == s.len() || !p(s[scan(s, pos, p)]),
    decreases s.len() - pos,
{
    if pos < s.len() && p(s[pos]) {
        lemma_scan_bounds(s, pos + 1, p);
    }
}

/// A maximal run of class `p` is read whole.
pub proof fn lemma_scan_run(s: Seq<char>, pos: int, x: Seq<char>, p: spec_fn(char) -> bool)
    requires
        occurs_at(s, pos, x),
        all_chars(x, p),
        pos + x.len() == s.len() || !p(s[pos + x.len()]),
    ensures
        scan(s, pos, p) == pos + x.len(),
    decreases x.len(),
{
    if x.len() > 0 {
        assert(s[pos] == x[0]);
        assert(p(x[0]));
        let y = x.drop_first();
        assert(s.subrange(pos + 1, pos + 1 + y.len()) =~= y) by {
            assert forall|i: int| 0 <= i < y.len() implies s.subrange(pos + 1, pos + 1 + y.len())[i]
                == y[i] by {
                assert(s[pos + 1 + i] == s.subrange(pos, pos + x.len())[i + 1]);
            }
        }
        assert forall|i: int| 0 <= i < y.len() implies #[trigger] p(y[i]) by {
            assert(p(x[i + 1]));
        }
        lemma_scan_run(s, pos + 1, y, p);
    } else {
        if pos < s.len() {
            assert(!p(s[pos]));
        }
    }
}

pub proof fn lemma_carets(x: Seq<char>)
    requires
        all_chars(x, caret_class()),
    ensures
        x == carets(x.len()),
    decreases x.len(),
{
    if x.len() > 0 {
        let y = x.drop_first();
        assert forall|i: int| 0 <= i < y.len() implies #[trigger] caret_class()(y[i]) by {
            assert(caret_class()(x[i + 1]));
        }
        lemma_carets(y);
        assert(caret_class()(x[0]));
        assert(x =~= seq!['^'] + y);
    }
}

pub proof fn lemma_carets_class(n: nat)
    ensures
        all_chars(carets(n), caret_class()),
        carets(n).len() == n,
    decreases n,
{
    if n > 0 {
        lemma_carets_class((n - 1) as nat);
        assert forall|i: int| 0 <= i < carets(n).len() implies #[trigger] caret_class()(
            carets(n)[i],
        ) by {
            if i > 0 {
                assert(carets(n)[i] == carets((n - 1) as nat)[i - 1]);
            }
        }
    }
}

// ------------------------------------------------------------------------
// Closures
// ------------------------------------------------------------------------

pub proof fn lemma_closure_sound(s: Seq<char>, pos: int)
    requires
        parse_closure(s, pos) is Some,
    ensures
        ({
            let (c, e) = parse_closure(s, pos).unwrap();
            &&& c is Closure
            &&& wf_content(c)
            &&& pos < e <= s.len()
            &&& s.subrange(pos, e) == render_content(c)
        }),
{
    let b = scan(s, pos + 1, caret_class());
    lemma_scan_bounds(s, pos + 1, caret_class());
    let c = scan(s, b, group_class());
    lemma_scan_bounds(s, b, group_class());
    let d = scan(s, c + 2, text_class());
    lemma_scan_bounds(s, c + 2, text_class());
    let carets_run = s.subrange(pos + 1, b);
    assert forall|i: int| 0 <= i < carets_run.len() implies #[trigger] caret_class()(
        carets_run[i],
    ) by {
        assert(caret_class()(s[pos + 1 + i]));
    }
    lemma_carets(carets_run);
    let group = s.subrange(b, c);
    assert forall|i: int| 0 <= i < group.len() implies #[trigger] group_class()(group[i]) by {
        assert(group_class()(s[b + i]));
    }
    let text = s.subrange(c + 2, d);
    assert forall|i: int| 0 <= i < text.len() implies #[trigger] text_class()(text[i]) by {
        assert(text_class()(s[c + 2 + i]));
    }
    assert(s.subrange(pos, d + 1) =~= seq!['('] + carets_run + group + seq![')', '['] + text
        + seq![']']);
}

pub proof fn lemma_closure_complete(s: Seq<char>, pos: int, cl: SpecContent)
    requires
        cl is Closure,
        wf_content(cl),
        occurs_at(s, pos, render_content(cl)),
    ensures
        parse_closure(s, pos) == Some((cl, pos + render_content(cl).len())),
{
    let location = cl->location;
    let group = cl->group;
    let text = cl->text;
    let r = render_content(cl);
    lemma_carets_class(location);
    let cs = carets(location);
    lemma_occurs_concat(s, pos, seq!['('] + cs + group + seq![')', '['] + text, seq![']']);
    lemma_occurs_concat(s, pos, seq!['('] + cs + group + seq![')', '['], text);
    lemma_occurs_concat(s, pos, seq!['('] + cs + group, seq![')', '[']);
    lemma_occurs_concat(s, pos, seq!['('] + cs, group);
    lemma_occurs_concat(s, pos, seq!['('], cs);
    let b = pos + 1 + location;
    let c = b + group.len();
    let d = c + 2 + text.len();
    assert(s[pos] == s.subrange(pos, pos + 1)[0]);
    assert(s[c] == s.subrange(c, c + 2)[0]);
    assert(s[c + 1] == s.subrange(c, c + 2)[1]);
    assert(s[d] == s.subrange(d, d + 1)[0]);
    assert(s[b] == group[0]) by {
        assert(s[b] == s.subrange(b, b + group.len())[0]);
    }
    assert(group_class()(group[0]));
    lemma_scan_run(s, pos + 1, cs, caret_class());
    lemma_scan_run(s, b, group, group_class());
    lemma_scan_run(s, c + 2, text, text_class());
    assert(text_class()(text[0]));
}


// ------------------------------------------------------------------------
// Content sequences
// ------------------------------------------------------------------------

pub proof fn lemma_wf_contents_cons(c: SpecContent, cs: Seq<SpecContent>)
    ensures
        wf_contents(seq![c] + cs) <==> (wf_content(c) && wf_contents(cs) && !(c is Text && cs.len()
            > 0 && cs[0] is Text)),
        (seq![c] + cs)[0] == c,
        (seq![c] + cs).drop_first() == cs,
{
    let all = seq![c] + cs;
    assert(all.drop_first() =~= cs);
    if wf_contents(all) {
        assert forall|i: int| 0 <= i < cs.len() implies #[trigger] wf_content(cs[i]) by {
            assert(all[i + 1] == cs[i]);
            assert(wf_content(all[i + 1]));
        }
        assert forall|i: int| 0 <= i < cs.len() - 1 implies !(#[trigger] cs[i] is Text && cs[i
            + 1] is Text) by {
            assert(all[i + 1] == cs[i]);
            assert(all[i + 2] == cs[i + 1]);
            assert(!(all[i + 1] is Text && all[i + 2] is Text));
        }
        assert(wf_content(all[0]));
        if cs.len() > 0 {
            assert(!(all[0] is Text && all[1] is Text));
        }
    }
    if wf_content(c) && wf_contents(cs) && !(c is Text && cs.len() > 0 && cs[0] is Text) {
        assert forall|i: int| 0 <= i < all.len() implies #[trigger] wf_content(all[i]) by {
            if i > 0 {
                assert(all[i] == cs[i - 1]);
            }
        }
        assert forall|i: int| 0 <= i < all.len() - 1 implies !(#[trigger] all[i] is Text && all[i
            + 1] is Text) by {
            if i > 0 {
                assert(all[i] == cs[i - 1]);
                assert(all[i + 1] == cs[i]);
            }
        }
    }
}

pub proof fn lemma_render_contents_cons(c: SpecContent, cs: Seq<SpecContent>)
    ensures
        render_contents(seq![c] + cs) == render_content(c) + render_contents(cs),
{
    lemma_wf_contents_cons(c, cs);
}

pub proof fn lemma_contents_sound(s: Seq<char>, pos: int)
    requires
        0 <= pos <= s.len(),
        parse_contents(s, pos) is Some,
    ensures
        ({
            let (cs, e) = parse_contents(s, pos).unwrap();
            &&& pos <= e <= s.len()
            &&& wf_contents(cs)
            &&& s.subrange(pos, e) == render_contents(cs)
            &&& (e == s.len() || (s[e] != '(' && !is_text_char(s[e])))
            &&& (cs.len() > 0 && cs[0] is Text) ==> (pos < s.len() && is_text_char(s[pos]))
        }),
    decreases s.len() - pos,
{
    let (cs, e) = parse_contents(s, pos).unwrap();
    if 0 <= pos < s.len() && s[pos] == '(' {
        let (c, e1) = parse_closure(s, pos).unwrap();
        lemma_closure_sound(s, pos);
        lemma_contents_sound(s, e1);
        let (rest, f) = parse_contents(s, e1).unwrap();
        lemma_wf_contents_cons(c, rest);
        lemma_render_contents_cons(c, rest);
        assert(s.subrange(pos, f) =~= s.subrange(pos, e1) + s.subrange(e1, f));
    } else if 0 <= pos < s.len() && is_text_char(s[pos]) {
        let e1 = scan(s, pos, text_class());
        lemma_scan_bounds(s, pos, text_class());
        lemma_contents_sound(s, e1);
        let (rest, f) = parse_contents(s, e1).unwrap();
        let t = s.subrange(pos, e1);
        assert forall|i: int| 0 <= i < t.len() implies #[trigger] text_class()(t[i]) by {
            assert(text_class()(s[pos + i]));
        }
        let c = SpecContent::Text(t);
        lemma_wf_contents_cons(c, rest);
        lemma_render_contents_cons(c, rest);
        assert(s.subrange(pos, f) =~= s.subrange(pos, e1) + s.subrange(e1, f));
    } else {
        assert(s.subrange(pos, pos) =~= Seq::<char>::empty());
    }
}

pub proof fn lemma_contents_complete(s: Seq<char>, pos: int, cs: Seq<SpecContent>)
    requires
        wf_contents(cs),
        occurs_at(s, pos, render_contents(cs)),
        pos + render_contents(cs).len() < s.len(),
        is_special(s[pos + render_contents(cs).len()]),
        s[pos + render_contents(cs).len()] != '(',
    ensures
        parse_contents(s, pos) == Some((cs, pos + render_contents(cs).len())),
    decreases cs.len(),
{
    if cs.len() == 0 {
    } else {
        let c = cs[0];
        let rest = cs.drop_first();
        assert(cs == seq![c] + rest) by {
            assert(cs =~= seq![c] + rest);
        }
        lemma_wf_contents_cons(c, rest);
        lemma_render_contents_cons(c, rest);
        lemma_occurs_concat(s, pos, render_content(c), render_contents(rest));
        let e1 = pos + render_content(c).len();
        if c is Closure {
            lemma_closure_complete(s, pos, c);
            assert(s[pos] == render_content(c)[0]) by {
                assert(s[pos] == s.subrange(pos, pos + render_content(c).len())[0]);
            }
            lemma_contents_complete(s, e1, rest);
        } else {
            let t = c->Text_0;
            assert(t.len() > 0);
            assert(s[pos] == t[0]) by {
                assert(s[pos] == s.subrange(pos, pos + t.len())[0]);
            }
            assert(text_class()(t[0]));
            // what follows the text is not text
            if rest.len() > 0 {
                assert(rest[0] is Closure);
                lemma_wf_contents_cons(rest[0], rest.drop_first());
                assert(rest =~= seq![rest[0]] + rest.drop_first());
                lemma_render_contents_cons(rest[0], rest.drop_first());
                lemma_occurs_concat(s, e1, render_content(rest[0]), render_contents(rest.drop_first()));
                assert(s[e1] == render_content(rest[0])[0]) by {
                    assert(s[e1] == s.subrange(e1, e1 + render_content(rest[0]).len())[0]);
                }
            }
            lemma_scan_run(s, pos, t, text_class());
            lemma_contents_complete(s, e1, rest);
        }
    }
}


// ------------------------------------------------------------------------
// Rems
// ------------------------------------------------------------------------

pub proof fn lemma_rems_cons(r: SpecRem, rs: Seq<SpecRem>)
    ensures
        (seq![r] + rs)[0] == r,
        (seq![r] + rs).drop_first() == rs,
        wf_rems(seq![r] + rs) == (wf_rem(r) && wf_rems(rs)),
        render_rems(seq![r] + rs) == render_rem(r) + seq!['\n'] + render_rems(rs),
{
    assert((seq![r] + rs).drop_first() =~= rs);
}

pub proof fn lemma_render_rem_first(r: SpecRem)
    ensures
        render_rem(r).len() > 0,
        render_rem(r)[0] == '<',
{
}

pub proof fn lemma_rem_sound(s: Seq<char>, pos: int)
    requires
        parse_rem(s, pos) is Some,
    ensures
        ({
            let (r, e) = parse_rem(s, pos).unwrap();
            &&& 0 <= pos < e <= s.len()
            &&& wf_rem(r)
            &&& s.subrange(pos, e) == render_rem(r)
        }),
    decreases s.len() - pos, 0int,
{
    let a = scan(s, pos + 1, id_class());
    lemma_scan_bounds(s, pos + 1, id_class());
    lemma_contents_sound(s, a + 1);
    let (cs, b) = parse_contents(s, a + 1).unwrap();
    lemma_rems_sound(s, b);
    let (rs, e) = parse_rems(s, b).unwrap();
    let id = s.subrange(pos + 1, a);
    assert forall|i: int| 0 <= i < id.len() implies #[trigger] id_class()(id[i]) by {
        assert(id_class()(s[pos + 1 + i]));
    }
    assert(s.subrange(pos, e + 1) =~= seq!['<'] + id + seq![' '] + s.subrange(a + 1, b)
        + s.subrange(b, e) + seq!['>']);
}

pub proof fn lemma_rems_sound(s: Seq<char>, pos: int)
    requires
        0 <= pos <= s.len(),
        parse_rems(s, pos) is Some,
    ensures
        ({
            let (rs, e) = parse_rems(s, pos).unwrap();
            &&& pos <= e <= s.len()
            &&& wf_rems(rs)
            &&& s.subrange(pos, e) == render_rems(rs)
            &&& (e == s.len() || s[e] != '<')
        }),
    decreases s.len() - pos, 1int,
{
    if 0 <= pos < s.len() && s[pos] == '<' {
        lemma_rem_sound(s, pos);
        let (r, e) = parse_rem(s, pos).unwrap();
        lemma_rems_sound(s, e + 1);
        let (rs, f) = parse_rems(s, e + 1).unwrap();
        lemma_rems_cons(r, rs);
        assert(s.subrange(pos, f) =~= s.subrange(pos, e) + seq!['\n'] + s.subrange(e + 1, f));
    } else {
        assert(s.subrange(pos, pos) =~= Seq::<char>::empty());
    }
}

pub proof fn lemma_rem_complete(s: Seq<char>, pos: int, r: SpecRem)
    requires
        wf_rem(r),
        occurs_at(s, pos, render_rem(r)),
    ensures
        parse_rem(s, pos) == Some((r, pos + render_rem(r).len())),
    decreases r, 0int,
{
    let rc = render_contents(r.content);
    let rr = render_rems(r.children);
    let p1 = seq!['<'] + r.id;
    let p2 = p1 + seq![' '];
    let p3 = p2 + rc;
    let p4 = p3 + rr;
    lemma_occurs_concat(s, pos, p4, seq!['>']);
    lemma_occurs_concat(s, pos, p3, rr);
    lemma_occurs_concat(s, pos, p2, rc);
    lemma_occurs_concat(s, pos, p1, seq![' ']);
    lemma_occurs_concat(s, pos, seq!['<'], r.id);
    let a = pos + 1 + r.id.len();
    let b = a + 1 + rc.len();
    let e = b + rr.len();
    assert(s[pos] == s.subrange(pos, pos + 1)[0]);
    assert(s[a] == s.subrange(a, a + 1)[0]);
    assert(s[e] == s.subrange(e, e + 1)[0]);
    lemma_scan_run(s, pos + 1, r.id, id_class());
    // what follows the contents opens a child or closes the rem
    lemma_occurs_concat(s, b, rr, seq!['>']);
    if r.children.len() > 0 {
        lemma_rems_cons(r.children[0], r.children.drop_first());
        assert(r.children =~= seq![r.children[0]] + r.children.drop_first());
        lemma_render_rem_first(r.children[0]);
        assert(s[b] == rr[0]) by {
            assert(s[b] == s.subrange(b, b + rr.len())[0]);
        }
    } else {
        assert(rr.len() == 0);
    }
    lemma_contents_complete(s, a + 1, r.content);
    lemma_rems_complete(s, b, r.children);
    assert(s.subrange(pos + 1, a) == r.id);
}

pub proof fn lemma_rems_complete(s: Seq<char>, pos: int, rs: Seq<SpecRem>)
    requires
        wf_rems(rs),
        occurs_at(s, pos, render_rems(rs)),
        pos + render_rems(rs).len() == s.len() || s[pos + render_rems(rs).len()] != '<',
    ensures
        parse_rems(s, pos) == Some((rs, pos + render_rems(rs).len())),
    decreases rs, 1int,
{
    if rs.len() == 0 {
    } else {
        let r = rs[0];
        let rest = rs.drop_first();
        lemma_rems_cons(r, rest);
        assert(rs =~= seq![r] + rest);
        lemma_occurs_concat(s, pos, render_rem(r) + seq!['\n'], render_rems(rest));
        lemma_occurs_concat(s, pos, render_rem(r), seq!['\n']);
        lemma_render_rem_first(r);
        assert(s[pos] == s.subrange(pos, pos + render_rem(r).len())[0]);
        lemma_rem_complete(s, pos, r);
        let e = pos + render_rem(r).len();
        assert(s[e] == s.subrange(e, e + 1)[0]);
        lemma_rems_complete(s, e + 1, rest);
    }
}

// ------------------------------------------------------------------------
// Documents
// ------------------------------------------------------------------------

/// A text is read as exactly the well-formed rems that are written as it: the
/// grammar is unambiguous, and every well-formed tree is read back from its text.
pub proof fn lemma_parse_document(s: Seq<char>, rs: Seq<SpecRem>)
    ensures
        parse_document(s) == Some(rs) <==> (wf_rems(rs) && render_rems(rs) == s),
{
    if parse_document(s) == Some(rs) {
        lemma_rems_sound(s, 0);
        assert(s.subrange(0, s.len() as int) =~= s);
    }
    if wf_rems(rs) && render_rems(rs) == s {
        assert(s.subrange(0, s.len() as int) =~= s);
        lemma_rems_complete(s, 0, rs);
    }
}


/// The text of rems holds the text of each of them, and a newline after it.
pub proof fn lemma_render_rems_contains(rs: Seq<SpecRem>, i: int)
    requires
        0 <= i < rs.len(),
    ensures
        render_rems(rs).len() >= render_rem(rs[i]).len() + 1,
    decreases rs.len(),
{
    if i > 0 {
        lemma_render_rems_contains(rs.drop_first(), i - 1);
    }
}

// ------------------------------------------------------------------------
// Rems by their place in a tree
// ------------------------------------------------------------------------

/// The rem of `rs` reached by the child indices `p`: `rs[p[0]]`, then its
/// child `p[1]`, and so on.
pub open spec fn rem_at(rs: Seq<SpecRem>, p: Seq<int>) -> SpecRem
    decreases p.len(),
{
    if p.len() <= 1 {
        rs[p[0]]
    } else {
        rem_at(rs[p[0]].children, p.drop_first())
    }
}

/// `p` leads to a rem of `rs`.
pub open spec fn is_path(rs: Seq<SpecRem>, p: Seq<int>) -> bool
    decreases p.len(),
{
    &&& p.len() > 0
    &&& 0 <= p[0] < rs.len()
    &&& p.len() > 1 ==> is_path(rs[p[0]].children, p.drop_first())
}

/// The ids of the rems along `p`, from the top down to the rem `p` leads to.
pub open spec fn path_ids(rs: Seq<SpecRem>, p: Seq<int>) -> Seq<Seq<char>> {
    Seq::new(p.len(), |m: int| rem_at(rs, p.take(m + 1)).id)
}

/// The id of the rem that `q` leads to among the rems nested in `r`, or the id
/// of `r` itself for an empty `q`.
pub open spec fn nested_rem_id(r: SpecRem, q: Seq<int>) -> Seq<char> {
    if q.len() == 0 {
        r.id
    } else {
        rem_at(r.children, q).id
    }
}

pub proof fn lemma_path_ids_step(rs: Seq<SpecRem>, p: Seq<int>)
    requires
        p.len() > 1,
    ensures
        path_ids(rs, p) == seq![rs[p[0]].id] + path_ids(rs[p[0]].children, p.drop_first()),
        rem_at(rs, p) == rem_at(rs[p[0]].children, p.drop_first()),
{
    let a = path_ids(rs, p);
    let b = seq![rs[p[0]].id] + path_ids(rs[p[0]].children, p.drop_first());
    assert forall|m: int| 0 <= m < a.len() implies a[m] == b[m] by {
        if m == 0 {
            assert(p.take(1).len() == 1 && p.take(1)[0] == p[0]);
        } else {
            assert(p.take(m + 1).drop_first() =~= p.drop_first().take(m));
        }
    }
    assert(a =~= b);
}

} // verus!
