//! The round-trip law: a tree built via the construction API renders to
//! text that parses back to the same tree.
//!
//! The law holds on the renderer's faithful domain ([`render_ok`]): names
//! made of name characters, no `"` inside attribute values (rendering never
//! escapes), attribute names unique, text children non-empty, free of `<`,
//! and never adjacent to another text child (adjacent text runs would be
//! lexed back as one token).  [`lemma_parse_render`] is the law itself;
//! [`lemma_lex_elem`] and [`lemma_tags_elem`] are its two halves: rendered
//! text lexes to the tree's token run, and that token run assembles to the
//! tree's tag run, which `lemma_build_tag_seq` already builds back.

use crate::tag::GTag;
use crate::tag::TagKind;
use crate::tag::aupsert;
use crate::tag::lemma_aupsert_missing;
use crate::tag::next_tag;
use crate::tag::scan_attrs;
use crate::tag::tags_from;
use crate::tag::AttrsOut;
use crate::tag::AsmStep;
use crate::document::XmlView;
use crate::document::spec_render;
use crate::document::spec_render_attrs;
use crate::document::spec_render_kids;
use crate::token::GTok;
use crate::token::LexState;
use crate::token::SpecTok;
use crate::token::TokenKind;
use crate::token::bump;
use crate::token::is_name_char;
use crate::token::lemma_name_run_concat;
use crate::token::lemma_quote_run_concat;
use crate::token::lemma_text_run_concat;
use crate::token::lemma_tokens_from_skip;
use crate::token::next_token;
use crate::token::tokens_from;
use vstd::prelude::*;

verus! {

pub open spec fn tok(text: Seq<char>, kind: TokenKind) -> GTok {
    GTok { text, kind }
}

/// The tokens of one rendered attribute list: name, `=`, value per pair.
pub open spec fn attr_toks(ps: Seq<(Seq<char>, Seq<char>)>) -> Seq<GTok>
    decreases ps,
{
    if ps.len() == 0 {
        Seq::empty()
    } else {
        seq![
            tok(ps[0].0, TokenKind::Name),
            tok(seq!['='], TokenKind::Equals),
            tok(ps[0].1, TokenKind::Value),
        ] + attr_toks(ps.drop_first())
    }
}

/// The tokens of one rendered tree.
pub open spec fn elem_toks(v: XmlView) -> Seq<GTok>
    decreases v,
{
    match v {
        XmlView::Text(t) => seq![tok(t, TokenKind::Text)],
        XmlView::Element { name, attrs, children } => if children.len() == 0 {
            seq![tok(seq!['<'], TokenKind::Open), tok(name, TokenKind::Name)] + attr_toks(attrs)
                + seq![tok(seq!['/', '>'], TokenKind::Close)]
        } else {
            seq![tok(seq!['<'], TokenKind::Open), tok(name, TokenKind::Name)] + attr_toks(attrs)
                + seq![tok(seq!['>'], TokenKind::Close)] + kids_toks(children) + seq![
                tok(seq!['<', '/'], TokenKind::Open),
                tok(name, TokenKind::Name),
                tok(seq!['>'], TokenKind::Close),
            ]
        },
    }
}

pub open spec fn kids_toks(cs: Seq<XmlView>) -> Seq<GTok>
    decreases cs,
{
    if cs.len() == 0 {
        Seq::empty()
    } else {
        elem_toks(cs[0]) + kids_toks(cs.drop_first())
    }
}

/// A usable name: non-empty, name characters only.
pub open spec fn name_ok(s: Seq<char>) -> bool {
    s.len() >= 1 && forall|i: int| 0 <= i < s.len() ==> is_name_char(s[i])
}

/// An attribute value that survives rendering: no `"` inside it.
pub open spec fn value_ok(s: Seq<char>) -> bool {
    forall|i: int| 0 <= i < s.len() ==> s[i] != '"'
}

pub open spec fn attr_ok(p: (Seq<char>, Seq<char>)) -> bool {
    name_ok(p.0) && value_ok(p.1)
}

pub open spec fn attrs_ok(ps: Seq<(Seq<char>, Seq<char>)>) -> bool {
    (forall|j: int| 0 <= j < ps.len() ==> attr_ok(#[trigger] ps[j])) && (forall|j1: int, j2: int|
        0 <= j1 < j2 < ps.len() ==> ps[j1].0 != ps[j2].0)
}

/// Text that renders faithfully: non-empty and free of `<`.
pub open spec fn text_ok(s: Seq<char>) -> bool {
    s.len() >= 1 && forall|i: int| 0 <= i < s.len() ==> s[i] != '<'
}

/// The renderer's faithful domain.
pub open spec fn render_ok(v: XmlView) -> bool
    decreases v,
{
    match v {
        XmlView::Text(t) => text_ok(t),
        XmlView::Element { name, attrs, children } => name_ok(name) && attrs_ok(attrs)
            && kids_ok(children),
    }
}

/// Children in the faithful domain: each faithful, and no two adjacent text
/// children (adjacent text runs would merge when lexed back).
pub open spec fn kids_ok(cs: Seq<XmlView>) -> bool
    decreases cs,
{
    if cs.len() == 0 {
        true
    } else {
        render_ok(cs[0]) && (cs[0] is Text && cs.len() >= 2 ==> !(cs[1] is Text)) && kids_ok(
            cs.drop_first(),
        )
    }
}

/// One produced token advances the stream by its consumption.
proof fn step(s: Seq<char>, st: LexState, t: SpecTok)
    requires
        next_token(s, st) == Some(t),
    ensures
        tokens_from(s, st) == seq![GTok { text: t.text, kind: t.kind }] + tokens_from(
            s.skip(t.used as int),
            t.state,
        ),
{
}

/// Lexing a rendered attribute list, inside a tag, gives exactly its
/// name/equals/value token triples and then continues.
#[verifier::rlimit(100)]
proof fn lemma_lex_attrs(ps: Seq<(Seq<char>, Seq<char>)>, rest: Seq<char>)
    requires
        forall|j: int| 0 <= j < ps.len() ==> attr_ok(#[trigger] ps[j]),
    ensures
        tokens_from(spec_render_attrs(ps) + rest, LexState::Tag) == attr_toks(ps) + tokens_from(
            rest,
            LexState::Tag,
        ),
    decreases ps.len(),
{
    if ps.len() == 0 {
        assert(spec_render_attrs(ps) + rest =~= rest);
        assert(attr_toks(ps) + tokens_from(rest, LexState::Tag) =~= tokens_from(
            rest,
            LexState::Tag,
        ));
    } else {
        let k = ps[0].0;
        let val = ps[0].1;
        assert(attr_ok(ps[0]));
        let arest = spec_render_attrs(ps.drop_first()) + rest;
        let s = spec_render_attrs(ps) + rest;
        // the leading space is skipped
        assert(s[0] == ' ');
        assert(next_token(s, LexState::Tag) == bump(
            next_token(s.drop_first(), LexState::Tag),
            1,
        ));
        assert(s.drop_first() =~= s.skip(1));
        lemma_tokens_from_skip(s, LexState::Tag, 1);
        // the attribute name
        let s1 = s.skip(1);
        let rest1 = seq!['='] + seq!['"'] + val + seq!['"'] + arest;
        assert(s1 =~= k + rest1);
        assert(s1[0] == k[0]);
        assert(rest1[0] == '=');
        lemma_name_run_concat(k, rest1);
        let t1 = SpecTok {
            text: s1.subrange(0, k.len() as int),
            kind: TokenKind::Name,
            used: k.len(),
            state: LexState::Tag,
        };
        assert(next_token(s1, LexState::Tag) == Some(t1));
        step(s1, LexState::Tag, t1);
        assert(t1.text =~= k);
        // the equals sign
        let s2 = s1.skip(k.len() as int);
        assert(s2 =~= seq!['='] + (seq!['"'] + val + seq!['"'] + arest));
        assert(s2[0] == '=');
        let t2 = SpecTok {
            text: s2.subrange(0, 1),
            kind: TokenKind::Equals,
            used: 1,
            state: LexState::Tag,
        };
        assert(next_token(s2, LexState::Tag) == Some(t2));
        step(s2, LexState::Tag, t2);
        assert(t2.text =~= seq!['=']);
        // the quoted value
        let s3 = s2.skip(1);
        assert(s3 =~= seq!['"'] + val + seq!['"'] + arest);
        assert(s3[0] == '"');
        assert(s3.drop_first() =~= val + (seq!['"'] + arest));
        lemma_quote_run_concat(val, seq!['"'] + arest, '"');
        assert(crate::token::quote_run(s3.drop_first(), '"') == val.len());
        let t3 = SpecTok {
            text: s3.subrange(1, val.len() as int + 1),
            kind: TokenKind::Value,
            used: val.len() + 2,
            state: LexState::Tag,
        };
        assert(next_token(s3, LexState::Tag) == Some(t3));
        step(s3, LexState::Tag, t3);
        assert(t3.text =~= val);
        // and on to the rest of the list
        let s4 = s3.skip(val.len() as int + 2);
        assert(s4 =~= arest);
        assert forall|j: int| 0 <= j < ps.drop_first().len() implies attr_ok(
            #[trigger] ps.drop_first()[j],
        ) by {
            assert(ps.drop_first()[j] == ps[j + 1]);
        }
        lemma_lex_attrs(ps.drop_first(), rest);
        assert(tokens_from(s, LexState::Tag) =~= attr_toks(ps) + tokens_from(
            rest,
            LexState::Tag,
        ));
    }
}

/// Lexing `<name attrs...` gives the open bracket, the name, and the
/// attribute tokens, leaving the lexer in tag state at `tail`.
#[verifier::rlimit(100)]
proof fn lemma_lex_tag_head(name: Seq<char>, attrs: Seq<(Seq<char>, Seq<char>)>, tail: Seq<char>)
    requires
        name_ok(name),
        forall|j: int| 0 <= j < attrs.len() ==> attr_ok(#[trigger] attrs[j]),
        tail.len() >= 1,
        tail[0] == '/' || tail[0] == '>',
    ensures
        tokens_from(seq!['<'] + name + spec_render_attrs(attrs) + tail, LexState::Content)
            == seq![tok(seq!['<'], TokenKind::Open), tok(name, TokenKind::Name)] + attr_toks(
            attrs,
        ) + tokens_from(tail, LexState::Tag),
{
    let a = spec_render_attrs(attrs);
    let s = seq!['<'] + name + a + tail;
    assert(s[0] == '<');
    assert(s[1] == name[0]);
    assert(is_name_char(name[0]));
    assert(!crate::token::is_comment_start(s));
    let t0 = SpecTok {
        text: s.subrange(0, 1),
        kind: TokenKind::Open,
        used: 1,
        state: LexState::Tag,
    };
    assert(next_token(s, LexState::Content) == Some(t0));
    step(s, LexState::Content, t0);
    assert(t0.text =~= seq!['<']);
    // the name
    let s1 = s.skip(1);
    let rest1 = a + tail;
    assert(s1 =~= name + rest1);
    assert(s1[0] == name[0]);
    if attrs.len() == 0 {
        assert(a =~= Seq::<char>::empty());
        assert(rest1[0] == tail[0]);
    } else {
        assert(a[0] == ' ');
        assert(rest1[0] == ' ');
    }
    assert(!is_name_char(rest1[0]));
    lemma_name_run_concat(name, rest1);
    let t1 = SpecTok {
        text: s1.subrange(0, name.len() as int),
        kind: TokenKind::Name,
        used: name.len(),
        state: LexState::Tag,
    };
    assert(next_token(s1, LexState::Tag) == Some(t1));
    step(s1, LexState::Tag, t1);
    assert(t1.text =~= name);
    // the attributes
    let s2 = s1.skip(name.len() as int);
    assert(s2 =~= a + tail);
    lemma_lex_attrs(attrs, tail);
    assert(tokens_from(s, LexState::Content) =~= seq![
        tok(seq!['<'], TokenKind::Open),
        tok(name, TokenKind::Name),
    ] + attr_toks(attrs) + tokens_from(tail, LexState::Tag));
}

/// Lexing the closing tag `</name>` gives its three tokens and returns to
/// content state.
#[verifier::rlimit(100)]
proof fn lemma_lex_closer(name: Seq<char>, rest: Seq<char>)
    requires
        name_ok(name),
    ensures
        tokens_from(seq!['<', '/'] + name + seq!['>'] + rest, LexState::Content) == seq![
            tok(seq!['<', '/'], TokenKind::Open),
            tok(name, TokenKind::Name),
            tok(seq!['>'], TokenKind::Close),
        ] + tokens_from(rest, LexState::Content),
{
    let s = seq!['<', '/'] + name + seq!['>'] + rest;
    assert(s[0] == '<');
    assert(s[1] == '/');
    assert(!crate::token::is_comment_start(s));
    let t0 = SpecTok {
        text: s.subrange(0, 2),
        kind: TokenKind::Open,
        used: 2,
        state: LexState::Tag,
    };
    assert(next_token(s, LexState::Content) == Some(t0));
    step(s, LexState::Content, t0);
    assert(t0.text =~= seq!['<', '/']);
    // the name
    let s1 = s.skip(2);
    let rest1 = seq!['>'] + rest;
    assert(s1 =~= name + rest1);
    assert(s1[0] == name[0]);
    assert(rest1[0] == '>');
    lemma_name_run_concat(name, rest1);
    let t1 = SpecTok {
        text: s1.subrange(0, name.len() as int),
        kind: TokenKind::Name,
        used: name.len(),
        state: LexState::Tag,
    };
    assert(next_token(s1, LexState::Tag) == Some(t1));
    step(s1, LexState::Tag, t1);
    assert(t1.text =~= name);
    // the close bracket
    let s2 = s1.skip(name.len() as int);
    assert(s2 =~= seq!['>'] + rest);
    assert(s2[0] == '>');
    let t2 = SpecTok {
        text: s2.subrange(0, 1),
        kind: TokenKind::Close,
        used: 1,
        state: LexState::Content,
    };
    assert(next_token(s2, LexState::Tag) == Some(t2));
    step(s2, LexState::Tag, t2);
    assert(t2.text =~= seq!['>']);
    assert(s2.skip(1) =~= rest);
    assert(tokens_from(s, LexState::Content) =~= seq![
        tok(seq!['<', '/'], TokenKind::Open),
        tok(name, TokenKind::Name),
        tok(seq!['>'], TokenKind::Close),
    ] + tokens_from(rest, LexState::Content));
}

/// Rendered text lexes to the tree's token run, whatever follows it (as
/// long as a rendered text node is followed by a `<` or nothing, so its run
/// is not extended).
#[verifier::rlimit(100)]
pub proof fn lemma_lex_elem(v: XmlView, rest: Seq<char>)
    requires
        render_ok(v),
        v is Text ==> rest.len() == 0 || rest[0] == '<',
    ensures
        tokens_from(spec_render(v) + rest, LexState::Content) == elem_toks(v) + tokens_from(
            rest,
            LexState::Content,
        ),
    decreases v,
{
    match v {
        XmlView::Text(t) => {
            let s = spec_render(v) + rest;
            assert(s =~= t + rest);
            assert(s[0] == t[0]);
            assert(s[0] != '<');
            lemma_text_run_concat(t, rest);
            let t0 = SpecTok {
                text: s.subrange(0, t.len() as int),
                kind: TokenKind::Text,
                used: t.len(),
                state: LexState::Content,
            };
            assert(next_token(s, LexState::Content) == Some(t0));
            step(s, LexState::Content, t0);
            assert(t0.text =~= t);
            assert(s.skip(t.len() as int) =~= rest);
            assert(tokens_from(s, LexState::Content) =~= elem_toks(v) + tokens_from(
                rest,
                LexState::Content,
            ));
        },
        XmlView::Element { name, attrs, children } => {
            let a = spec_render_attrs(attrs);
            if children.len() == 0 {
                let tail = seq!['/', '>'] + rest;
                assert(spec_render(v) + rest =~= seq!['<'] + name + a + tail);
                lemma_lex_tag_head(name, attrs, tail);
                // the self-closing bracket
                assert(tail[0] == '/');
                assert(tail[1] == '>');
                let t3 = SpecTok {
                    text: tail.subrange(0, 2),
                    kind: TokenKind::Close,
                    used: 2,
                    state: LexState::Content,
                };
                assert(next_token(tail, LexState::Tag) == Some(t3));
                step(tail, LexState::Tag, t3);
                assert(t3.text =~= seq!['/', '>']);
                assert(tail.skip(2) =~= rest);
                assert(tokens_from(spec_render(v) + rest, LexState::Content) =~= elem_toks(v)
                    + tokens_from(rest, LexState::Content));
            } else {
                let k = spec_render_kids(children);
                let closer = seq!['<', '/'] + name + seq!['>'] + rest;
                let tail = seq!['>'] + k + closer;
                assert(spec_render(v) + rest =~= seq!['<'] + name + a + tail);
                lemma_lex_tag_head(name, attrs, tail);
                // the open bracket of the children run
                assert(tail[0] == '>');
                let t3 = SpecTok {
                    text: tail.subrange(0, 1),
                    kind: TokenKind::Close,
                    used: 1,
                    state: LexState::Content,
                };
                assert(next_token(tail, LexState::Tag) == Some(t3));
                step(tail, LexState::Tag, t3);
                assert(t3.text =~= seq!['>']);
                assert(tail.skip(1) =~= k + closer);
                assert(closer[0] == '<');
                lemma_lex_kids(children, closer);
                lemma_lex_closer(name, rest);
                assert(tokens_from(spec_render(v) + rest, LexState::Content) =~= elem_toks(v)
                    + tokens_from(rest, LexState::Content));
            }
        },
    }
}

/// A rendered children run lexes to the children's token runs, one after
/// the other.
#[verifier::rlimit(100)]
pub proof fn lemma_lex_kids(cs: Seq<XmlView>, rest: Seq<char>)
    requires
        kids_ok(cs),
        rest.len() >= 1,
        rest[0] == '<',
    ensures
        tokens_from(spec_render_kids(cs) + rest, LexState::Content) == kids_toks(cs)
            + tokens_from(rest, LexState::Content),
    decreases cs,
{
    if cs.len() == 0 {
        assert(spec_render_kids(cs) + rest =~= rest);
        assert(kids_toks(cs) + tokens_from(rest, LexState::Content) =~= tokens_from(
            rest,
            LexState::Content,
        ));
    } else {
        let krest = spec_render_kids(cs.drop_first()) + rest;
        assert(spec_render_kids(cs) + rest =~= spec_render(cs[0]) + krest);
        assert(krest.len() >= 1);
        if cs[0] is Text {
            if cs.len() >= 2 {
                let c1 = cs.drop_first()[0];
                assert(c1 == cs[1]);
                assert(!(c1 is Text));
                match c1 {
                    XmlView::Element { name, attrs, children } => {
                        assert(spec_render(c1)[0] == '<');
                    },
                    XmlView::Text(_) => {},
                }
                assert(spec_render_kids(cs.drop_first()) =~= spec_render(c1) + spec_render_kids(
                    cs.drop_first().drop_first(),
                ));
                assert(krest[0] == '<');
            } else {
                assert(cs.drop_first().len() == 0);
                assert(krest =~= rest);
            }
        }
        lemma_lex_elem(cs[0], krest);
        lemma_lex_kids(cs.drop_first(), rest);
        assert(tokens_from(spec_render_kids(cs) + rest, LexState::Content) =~= kids_toks(cs)
            + tokens_from(rest, LexState::Content));
    }
}

/// Inserting a list of attributes one by one, starting from `acc`.
pub open spec fn fold_aupsert(
    acc: Seq<(Seq<char>, Seq<char>)>,
    ps: Seq<(Seq<char>, Seq<char>)>,
) -> Seq<(Seq<char>, Seq<char>)>
    decreases ps,
{
    if ps.len() == 0 {
        acc
    } else {
        fold_aupsert(aupsert(acc, ps[0].0, ps[0].1), ps.drop_first())
    }
}

proof fn lemma_attr_toks_len(ps: Seq<(Seq<char>, Seq<char>)>)
    ensures
        attr_toks(ps).len() == 3 * ps.len(),
    decreases ps,
{
    if ps.len() == 0 {
    } else {
        lemma_attr_toks_len(ps.drop_first());
    }
}

/// The attribute section of a rendered tag scans to exactly its pairs.
proof fn lemma_scan_attr_toks(
    ps: Seq<(Seq<char>, Seq<char>)>,
    acc: Seq<(Seq<char>, Seq<char>)>,
    c: GTok,
    trest: Seq<GTok>,
)
    requires
        c.kind == TokenKind::Close,
    ensures
        scan_attrs(attr_toks(ps) + seq![c] + trest, acc) == (AttrsOut::Done {
            attrs: fold_aupsert(acc, ps),
            close: c.text,
            used: 3 * ps.len() + 1,
        }),
    decreases ps,
{
    let ts = attr_toks(ps) + seq![c] + trest;
    lemma_attr_toks_len(ps);
    if ps.len() == 0 {
        assert(ts[0] == c);
    } else {
        assert(ts[0] == tok(ps[0].0, TokenKind::Name));
        assert(ts[1] == tok(seq!['='], TokenKind::Equals));
        assert(ts[2] == tok(ps[0].1, TokenKind::Value));
        assert(ts.len() >= 4);
        assert(ts.skip(3) =~= attr_toks(ps.drop_first()) + seq![c] + trest);
        lemma_scan_attr_toks(ps.drop_first(), aupsert(acc, ps[0].0, ps[0].1), c, trest);
    }
}

/// Folding unique fresh attribute names into `acc` just appends them.
proof fn lemma_fold_aupsert(acc: Seq<(Seq<char>, Seq<char>)>, ps: Seq<(Seq<char>, Seq<char>)>)
    requires
        forall|j1: int, j2: int| 0 <= j1 < j2 < ps.len() ==> ps[j1].0 != ps[j2].0,
        forall|l: int, j: int|
            0 <= l < acc.len() && 0 <= j < ps.len() ==> acc[l].0 != ps[j].0,
    ensures
        fold_aupsert(acc, ps) == acc + ps,
    decreases ps,
{
    if ps.len() == 0 {
        assert(acc + ps =~= acc);
    } else {
        assert forall|l: int| 0 <= l < acc.len() implies acc[l].0 != ps[0].0 by {}
        lemma_aupsert_missing(acc, ps[0].0, ps[0].1);
        let acc2 = acc.push((ps[0].0, ps[0].1));
        assert(aupsert(acc, ps[0].0, ps[0].1) == acc2);
        assert forall|j1: int, j2: int|
            0 <= j1 < j2 < ps.drop_first().len() implies ps.drop_first()[j1].0
            != ps.drop_first()[j2].0 by {
            assert(ps.drop_first()[j1] == ps[j1 + 1]);
            assert(ps.drop_first()[j2] == ps[j2 + 1]);
        }
        assert forall|l: int, j: int|
            0 <= l < acc2.len() && 0 <= j < ps.drop_first().len() implies acc2[l].0
            != ps.drop_first()[j].0 by {
            assert(ps.drop_first()[j] == ps[j + 1]);
            if l < acc.len() {
                assert(acc2[l] == acc[l]);
            } else {
                assert(acc2[l] == (ps[0].0, ps[0].1));
            }
        }
        lemma_fold_aupsert(acc2, ps.drop_first());
        assert(acc2 + ps.drop_first() =~= acc + ps);
    }
}

/// Assembling one rendered tag's token run yields exactly that tag.
#[verifier::rlimit(100)]
proof fn lemma_asm_tag_unit(
    openb: Seq<char>,
    name: Seq<char>,
    ps: Seq<(Seq<char>, Seq<char>)>,
    closeb: Seq<char>,
    kind: TagKind,
    trest: Seq<GTok>,
)
    requires
        (openb == seq!['<'] && closeb == seq!['>'] && kind == TagKind::Opening) || (openb
            == seq!['<'] && closeb == seq!['/', '>'] && kind == TagKind::SelfClosing) || (openb
            == seq!['<', '/'] && closeb == seq!['>'] && kind == TagKind::Closing),
        forall|j1: int, j2: int| 0 <= j1 < j2 < ps.len() ==> ps[j1].0 != ps[j2].0,
    ensures
        next_tag(
            seq![tok(openb, TokenKind::Open), tok(name, TokenKind::Name)] + attr_toks(ps) + seq![
                tok(closeb, TokenKind::Close),
            ] + trest,
        ) == (AsmStep {
            tag: Some(GTag::Tag { name, attrs: ps, kind }),
            used: 3 * ps.len() + 3,
            diags: Seq::empty(),
        }),
{
    let ts = seq![tok(openb, TokenKind::Open), tok(name, TokenKind::Name)] + attr_toks(ps)
        + seq![tok(closeb, TokenKind::Close)] + trest;
    lemma_attr_toks_len(ps);
    assert(ts[0] == tok(openb, TokenKind::Open));
    assert(ts[1] == tok(name, TokenKind::Name));
    assert(ts.len() >= 3);
    assert(ts.skip(2) =~= attr_toks(ps) + seq![tok(closeb, TokenKind::Close)] + trest);
    lemma_scan_attr_toks(ps, Seq::empty(), tok(closeb, TokenKind::Close), trest);
    lemma_fold_aupsert(Seq::empty(), ps);
    assert(Seq::<(Seq<char>, Seq<char>)>::empty() + ps =~= ps);
    assert(scan_attrs(ts.skip(2), Seq::empty()) == (AttrsOut::Done {
        attrs: ps,
        close: closeb,
        used: 3 * ps.len() + 1,
    }));
    assert(seq!['<'].len() == 1);
    assert(seq!['>'].len() == 1);
    assert(seq!['<', '/'].len() == 2);
    assert(seq!['/', '>'].len() == 2);
}

/// A rendered tree's token run assembles to its tag run, whatever tokens
/// follow, and records no diagnostics.
#[verifier::rlimit(100)]
pub proof fn lemma_tags_elem(v: XmlView, trest: Seq<GTok>)
    requires
        render_ok(v),
    ensures
        tags_from(elem_toks(v) + trest) == crate::document::tag_seq_of(v) + tags_from(trest),
    decreases v,
{
    let ts = elem_toks(v) + trest;
    match v {
        XmlView::Text(t) => {
            assert(ts[0] == tok(t, TokenKind::Text));
            assert(ts.skip(1) =~= trest);
            assert(tags_from(ts) =~= crate::document::tag_seq_of(v) + tags_from(trest));
        },
        XmlView::Element { name, attrs, children } => {
            if children.len() == 0 {
                assert(ts =~= seq![tok(seq!['<'], TokenKind::Open), tok(name, TokenKind::Name)]
                    + attr_toks(attrs) + seq![tok(seq!['/', '>'], TokenKind::Close)] + trest);
                lemma_asm_tag_unit(
                    seq!['<'],
                    name,
                    attrs,
                    seq!['/', '>'],
                    TagKind::SelfClosing,
                    trest,
                );
                lemma_attr_toks_len(attrs);
                assert(ts.skip(3 * attrs.len() as int + 3) =~= trest);
                assert(tags_from(ts) =~= crate::document::tag_seq_of(v) + tags_from(trest));
            } else {
                let closer_toks = seq![
                    tok(seq!['<', '/'], TokenKind::Open),
                    tok(name, TokenKind::Name),
                    tok(seq!['>'], TokenKind::Close),
                ];
                let after = kids_toks(children) + closer_toks + trest;
                assert(ts =~= seq![tok(seq!['<'], TokenKind::Open), tok(name, TokenKind::Name)]
                    + attr_toks(attrs) + seq![tok(seq!['>'], TokenKind::Close)] + after);
                lemma_asm_tag_unit(seq!['<'], name, attrs, seq!['>'], TagKind::Opening, after);
                lemma_attr_toks_len(attrs);
                assert(ts.skip(3 * attrs.len() as int + 3) =~= after);
                assert(after =~= kids_toks(children) + (closer_toks + trest));
                lemma_tags_kids(children, closer_toks + trest);
                // the closing tag: a bare tag with no attributes
                let cts = closer_toks + trest;
                assert(cts =~= seq![
                    tok(seq!['<', '/'], TokenKind::Open),
                    tok(name, TokenKind::Name),
                ] + attr_toks(Seq::empty()) + seq![tok(seq!['>'], TokenKind::Close)] + trest);
                lemma_asm_tag_unit(
                    seq!['<', '/'],
                    name,
                    Seq::empty(),
                    seq!['>'],
                    TagKind::Closing,
                    trest,
                );
                assert(cts.skip(3) =~= trest);
                assert(tags_from(cts) =~= seq![
                    GTag::Tag { name, attrs: Seq::empty(), kind: TagKind::Closing },
                ] + tags_from(trest));
                assert(tags_from(ts) =~= crate::document::tag_seq_of(v) + tags_from(trest));
            }
        },
    }
}

/// A rendered children run's tokens assemble to the children's tag runs.
pub proof fn lemma_tags_kids(cs: Seq<XmlView>, trest: Seq<GTok>)
    requires
        kids_ok(cs),
    ensures
        tags_from(kids_toks(cs) + trest) == crate::document::tag_seqs_of(cs) + tags_from(trest),
    decreases cs,
{
    if cs.len() == 0 {
        assert(kids_toks(cs) + trest =~= trest);
        assert(crate::document::tag_seqs_of(cs) + tags_from(trest) =~= tags_from(trest));
    } else {
        assert(kids_toks(cs) + trest =~= elem_toks(cs[0]) + (kids_toks(cs.drop_first())
            + trest));
        lemma_tags_elem(cs[0], kids_toks(cs.drop_first()) + trest);
        lemma_tags_kids(cs.drop_first(), trest);
        assert(tags_from(kids_toks(cs) + trest) =~= crate::document::tag_seqs_of(cs)
            + tags_from(trest));
    }
}

/// A text spells a tree when it is the canonical rendering of a tree in
/// the faithful domain: balanced, properly nested tags, each opening tag
/// terminated by the equally named closing tag (or self-closing).
pub open spec fn spells_tree(s: Seq<char>, v: XmlView) -> bool {
    render_ok(v) && s == spec_render(v)
}

/// Well-formed balanced input parses, as one text-level theorem: a text
/// that spells a tree parses to exactly that tree.  In particular the parse
/// succeeds, and every element in the output carries the name of the source
/// closing tag that terminated it, since the spelled text pairs each
/// opening tag with an equally named closer.
pub proof fn lemma_parse_balanced(s: Seq<char>, v: XmlView)
    requires
        spells_tree(s, v),
    ensures
        crate::document::spec_document(s) == Ok::<XmlView, crate::ErrorView>(v),
{
    lemma_parse_render(v);
}

/// A comment at the head of the input contributes nothing at the document
/// level either: the tree (or error) is that of the input with the comment
/// span removed.  Together with `lemma_comment_invisible`, which says the
/// same of any position the lexer reaches in either state, a comment never
/// adds a token or a node.
pub proof fn lemma_comment_prefix_document(s: Seq<char>)
    requires
        crate::token::is_comment_start(s),
    ensures
        crate::document::spec_document(s) == crate::document::spec_document(
            s.skip(crate::token::comment_len(s) as int),
        ),
{
    crate::token::lemma_comment_invisible(s, LexState::Content);
}

/// The round-trip law, on the renderer's faithful domain: rendering a tree
/// and parsing the text back yields exactly the tree — same names, same
/// attributes in order, same children in document order.
pub proof fn lemma_parse_render(v: XmlView)
    requires
        render_ok(v),
    ensures
        crate::document::spec_document(spec_render(v)) == Ok::<XmlView, crate::ErrorView>(v),
{
    lemma_lex_elem(v, Seq::empty());
    assert(spec_render(v) + Seq::<char>::empty() =~= spec_render(v));
    assert(tokens_from(Seq::<char>::empty(), LexState::Content) =~= Seq::<GTok>::empty());
    assert(elem_toks(v) + Seq::<GTok>::empty() =~= elem_toks(v));
    lemma_tags_elem(v, Seq::empty());
    assert(tags_from(Seq::<GTok>::empty()) =~= Seq::<GTag>::empty());
    assert(crate::document::tag_seq_of(v) + Seq::<GTag>::empty() =~= crate::document::tag_seq_of(
        v,
    ));
    crate::document::lemma_build_tag_seq(v, Seq::empty());
}

} // verus!
