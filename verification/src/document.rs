//! Document tree: the recursive-descent builder that consumes the tag
//! stream, the [`Xml`] node type, its read and mutation API, and the
//! canonical renderer.
//!
//! The spec functions [`build`] and [`kids`] are the mathematical model of
//! the builder: [`element`] is proved to return exactly what they describe.

use crate::Error;
use crate::ErrorView;
use crate::tag::GTag;
use crate::tag::Tag;
use crate::tag::TagKind;
use crate::tag::Tags;
use crate::tag::alookup;
use crate::tag::aupsert;
use crate::tag::attrs_view;
use crate::tag::spec_tags;
use vstd::prelude::*;

verus! {

/// XML node: an element with attributes and children, or a text leaf.
/// All node data is owned.
#[derive(Debug)]
pub enum Xml {
    /// XML element.
    Element {
        /// Element name.
        name: String,
        /// Element attributes, in first-occurrence order, names unique.
        attrs: Vec<(String, String)>,
        /// Element children, in document order.
        children: Vec<Xml>,
    },
    /// XML text content.
    Text(String),
}

/// Mathematical model of an [`Xml`] node.
pub enum XmlView {
    Element {
        name: Seq<char>,
        attrs: Seq<(Seq<char>, Seq<char>)>,
        children: Seq<XmlView>,
    },
    Text(Seq<char>),
}

pub open spec fn attrs_deep(v: Seq<(String, String)>) -> Seq<(Seq<char>, Seq<char>)> {
    v.map_values(|p: (String, String)| (p.0@, p.1@))
}

pub open spec fn xml_view(x: Xml) -> XmlView
    decreases x,
{
    match x {
        Xml::Text(t) => XmlView::Text(t@),
        Xml::Element { name, attrs, children } => XmlView::Element {
            name: name@,
            attrs: attrs_deep(attrs@),
            children: xml_views(children@),
        },
    }
}

impl View for Xml {
    type V = XmlView;

    open spec fn view(&self) -> XmlView {
        xml_view(*self)
    }
}

pub open spec fn xml_views(cs: Seq<Xml>) -> Seq<XmlView>
    decreases cs,
{
    if cs.len() == 0 {
        Seq::empty()
    } else {
        seq![xml_view(cs[0])] + xml_views(cs.drop_first())
    }
}

/// `xml_views` maps `xml_view` over the sequence, element by element.
pub proof fn lemma_xml_views(cs: Seq<Xml>)
    ensures
        xml_views(cs).len() == cs.len(),
        forall|i: int| 0 <= i < cs.len() ==> xml_views(cs)[i] == xml_view(cs[i]),
    decreases cs.len(),
{
    if cs.len() == 0 {
    } else {
        lemma_xml_views(cs.drop_first());
        assert forall|i: int| 0 <= i < cs.len() implies xml_views(cs)[i] == xml_view(cs[i]) by {
            if i > 0 {
                assert(xml_views(cs.drop_first())[i - 1] == xml_view(cs.drop_first()[i - 1]));
            }
        }
    }
}

impl XmlView {
    pub open spec fn is_element(self) -> bool {
        self matches XmlView::Element { .. }
    }

    pub open spec fn is_text(self) -> bool {
        self matches XmlView::Text(_)
    }

    pub open spec fn vname(self) -> Seq<char> {
        match self {
            XmlView::Element { name, .. } => name,
            XmlView::Text(t) => t,
        }
    }

    pub open spec fn vattrs(self) -> Seq<(Seq<char>, Seq<char>)> {
        match self {
            XmlView::Element { attrs, .. } => attrs,
            XmlView::Text(_) => Seq::empty(),
        }
    }

    pub open spec fn vkids(self) -> Seq<XmlView> {
        match self {
            XmlView::Element { children, .. } => children,
            XmlView::Text(_) => Seq::empty(),
        }
    }

    pub open spec fn vtext(self) -> Seq<char> {
        match self {
            XmlView::Element { .. } => Seq::empty(),
            XmlView::Text(t) => t,
        }
    }
}

/// Result of building one node from a tag stream: the node and the tags it
/// consumed, an error, or `Out` when the recursion allowance is spent.
/// `Out` never occurs at the allowance [`build`] grants; see
/// [`lemma_build_total`].
pub enum BuildRes {
    Built(XmlView, nat),
    Failed(ErrorView),
    Out,
}

/// Result of building the children of an element up to and including its
/// matching closing tag.
pub enum KidsRes {
    Built(Seq<XmlView>, nat),
    Failed(ErrorView),
    Out,
}

/// Build one node from the head of the tag stream, with an explicit
/// recursion allowance `fuel`.
///
/// A declaration is skipped transparently; text becomes a text node; a
/// closing tag where an opening tag was expected is `Mismatched`; a
/// self-closing tag is an element with no children, whatever follows it;
/// an opening tag collects children until its matching closer.
pub open spec fn build_at(ts: Seq<GTag>, fuel: nat) -> BuildRes
    decreases fuel,
{
    if fuel == 0 {
        BuildRes::Out
    } else if ts.len() == 0 {
        BuildRes::Failed(ErrorView::Eof)
    } else {
        match ts[0] {
            GTag::Declaration { .. } => match build_at(ts.skip(1), (fuel - 1) as nat) {
                BuildRes::Built(v, u) => BuildRes::Built(v, u + 1),
                r => r,
            },
            GTag::Text(t) => BuildRes::Built(XmlView::Text(t), 1),
            GTag::Tag { name, attrs, kind } => {
                if kind == TagKind::Closing {
                    BuildRes::Failed(
                        ErrorView::Mismatched { expected: "any opening tag"@, found: name },
                    )
                } else if kind == TagKind::SelfClosing {
                    BuildRes::Built(XmlView::Element { name, attrs, children: Seq::empty() }, 1)
                } else {
                    match kids_at(ts.skip(1), name, (fuel - 1) as nat) {
                        KidsRes::Built(cs, u) => BuildRes::Built(
                            XmlView::Element { name, attrs, children: cs },
                            1 + u,
                        ),
                        KidsRes::Failed(e) => BuildRes::Failed(e),
                        KidsRes::Out => BuildRes::Out,
                    }
                }
            },
        }
    }
}

/// Build children until the closing tag named `name`.  A closing tag with
/// another name is `Mismatched`; running out of tags is `Eof`.
pub open spec fn kids_at(ts: Seq<GTag>, name: Seq<char>, fuel: nat) -> KidsRes
    decreases fuel,
{
    if fuel == 0 {
        KidsRes::Out
    } else if ts.len() == 0 {
        KidsRes::Failed(ErrorView::Eof)
    } else if ts[0] matches GTag::Tag { kind: TagKind::Closing, .. } {
        if ts[0].gname() == name {
            KidsRes::Built(Seq::empty(), 1)
        } else {
            KidsRes::Failed(ErrorView::Mismatched { expected: name, found: ts[0].gname() })
        }
    } else {
        match build_at(ts, (fuel - 1) as nat) {
            BuildRes::Built(c, u) => match kids_at(ts.skip(u as int), name, (fuel - 1) as nat) {
                KidsRes::Built(cs, u2) => KidsRes::Built(seq![c] + cs, u + u2),
                r => r,
            },
            BuildRes::Failed(e) => KidsRes::Failed(e),
            BuildRes::Out => KidsRes::Out,
        }
    }
}

/// Build one node from the head of the tag stream.
pub open spec fn build(ts: Seq<GTag>) -> BuildRes {
    build_at(ts, 2 * ts.len() + 1)
}

/// Build children of the element named `name` from the tag stream.
pub open spec fn kids(ts: Seq<GTag>, name: Seq<char>) -> KidsRes {
    kids_at(ts, name, 2 * ts.len() + 2)
}

/// The allowance `2·len + 1` always suffices: any two sufficient allowances
/// agree, the builder never runs out, and a built node consumes between one
/// tag and the whole stream.
pub proof fn lemma_build_total(ts: Seq<GTag>, f1: nat, f2: nat)
    requires
        f1 >= 2 * ts.len() + 1,
        f2 >= 2 * ts.len() + 1,
    ensures
        build_at(ts, f1) == build_at(ts, f2),
        !(build_at(ts, f1) is Out),
        build_at(ts, f1) matches BuildRes::Built(v, u) ==> 1 <= u <= ts.len(),
    decreases f1 + f2,
{
    if ts.len() == 0 {
    } else {
        match ts[0] {
            GTag::Declaration { .. } => {
                lemma_build_total(ts.skip(1), (f1 - 1) as nat, (f2 - 1) as nat);
            },
            GTag::Text(t) => {},
            GTag::Tag { name, attrs, kind } => {
                if kind == TagKind::Closing || kind == TagKind::SelfClosing {
                } else {
                    lemma_kids_total(ts.skip(1), name, (f1 - 1) as nat, (f2 - 1) as nat);
                }
            },
        }
    }
}

pub proof fn lemma_kids_total(ts: Seq<GTag>, name: Seq<char>, f1: nat, f2: nat)
    requires
        f1 >= 2 * ts.len() + 2,
        f2 >= 2 * ts.len() + 2,
    ensures
        kids_at(ts, name, f1) == kids_at(ts, name, f2),
        !(kids_at(ts, name, f1) is Out),
        kids_at(ts, name, f1) matches KidsRes::Built(cs, u) ==> 1 <= u <= ts.len(),
    decreases f1 + f2,
{
    if ts.len() == 0 {
    } else if ts[0] matches GTag::Tag { kind: TagKind::Closing, .. } {
    } else {
        lemma_build_total(ts, (f1 - 1) as nat, (f2 - 1) as nat);
        match build_at(ts, (f1 - 1) as nat) {
            BuildRes::Built(c, u) => {
                lemma_kids_total(ts.skip(u as int), name, (f1 - 1) as nat, (f2 - 1) as nat);
            },
            _ => {},
        }
    }
}

/// The declaration-skipping step, at the canonical allowances.
pub proof fn lemma_build_decl(ts: Seq<GTag>)
    requires
        ts.len() >= 1,
    ensures
        build_at(ts.skip(1), 2 * ts.len()) == build(ts.skip(1)),
{
    lemma_build_total(ts.skip(1), 2 * ts.len(), 2 * ts.skip(1).len() + 1);
}

/// The children-tail step, at the canonical allowances.
pub proof fn lemma_kids_tail(ts: Seq<GTag>, name: Seq<char>, u: nat)
    requires
        1 <= u <= ts.len(),
    ensures
        kids_at(ts.skip(u as int), name, 2 * ts.len() + 1) == kids(ts.skip(u as int), name),
{
    lemma_kids_total(ts.skip(u as int), name, 2 * ts.len() + 1, 2 * ts.skip(u as int).len() + 2);
}

/// A self-closing tag yields an element with zero children, regardless of
/// whatever follows it in the stream: exactly one tag is consumed.
pub proof fn lemma_self_closing_no_children(
    ts: Seq<GTag>,
    name: Seq<char>,
    attrs: Seq<(Seq<char>, Seq<char>)>,
)
    requires
        ts.len() >= 1,
        ts[0] == (GTag::Tag { name, attrs, kind: TagKind::SelfClosing }),
    ensures
        build(ts) == BuildRes::Built(
            XmlView::Element { name, attrs, children: Seq::empty() },
            1,
        ),
{
}

/// A declaration at the head of the stream is skipped transparently: the
/// tree is the tree of what follows, and no node of the tree comes from the
/// declaration.
pub proof fn lemma_declaration_skipped(ts: Seq<GTag>)
    requires
        ts.len() >= 1,
        ts[0] is Declaration,
    ensures
        build(ts) == (match build(ts.skip(1)) {
            BuildRes::Built(v, u) => BuildRes::Built(v, u + 1),
            r => r,
        }),
{
    lemma_build_decl(ts);
}

/// The tag sequence that spells a tree: an opening tag, the children's tag
/// sequences, and the equally named closing tag — or a single self-closing
/// tag for an element without children, or a text tag for a text node.
pub open spec fn tag_seq_of(v: XmlView) -> Seq<GTag>
    decreases v,
{
    match v {
        XmlView::Text(t) => seq![GTag::Text(t)],
        XmlView::Element { name, attrs, children } => if children.len() == 0 {
            seq![GTag::Tag { name, attrs, kind: TagKind::SelfClosing }]
        } else {
            seq![GTag::Tag { name, attrs, kind: TagKind::Opening }] + tag_seqs_of(children)
                + seq![GTag::Tag { name, attrs: Seq::empty(), kind: TagKind::Closing }]
        },
    }
}

pub open spec fn tag_seqs_of(cs: Seq<XmlView>) -> Seq<GTag>
    decreases cs,
{
    if cs.len() == 0 {
        Seq::empty()
    } else {
        tag_seq_of(cs[0]) + tag_seqs_of(cs.drop_first())
    }
}

proof fn lemma_tag_seq_len(v: XmlView)
    ensures
        tag_seq_of(v).len() >= 1,
{
}

/// Builder completeness, the tag-level half of the round-trip law: a
/// balanced tag run — the tag sequence of any tree — builds back to exactly
/// that tree, whatever tags follow it.  In particular the parse succeeds,
/// and each opening tag in the output is matched against the equally named
/// closing tag that `tag_seq_of` pairs with it.
pub proof fn lemma_build_tag_seq(v: XmlView, rest: Seq<GTag>)
    ensures
        build(tag_seq_of(v) + rest) == BuildRes::Built(v, tag_seq_of(v).len()),
    decreases v,
{
    let ts = tag_seq_of(v) + rest;
    assert(ts.len() == tag_seq_of(v).len() + rest.len());
    match v {
        XmlView::Text(t) => {
            assert(ts[0] == GTag::Text(t));
        },
        XmlView::Element { name, attrs, children } => {
            if children.len() == 0 {
                assert(ts[0] == (GTag::Tag { name, attrs, kind: TagKind::SelfClosing }));
                assert(children =~= Seq::<XmlView>::empty());
            } else {
                assert(ts[0] == (GTag::Tag { name, attrs, kind: TagKind::Opening }));
                let closer = GTag::Tag { name, attrs: Seq::empty(), kind: TagKind::Closing };
                assert(ts.skip(1) =~= tag_seqs_of(children) + seq![closer] + rest);
                lemma_kids_tag_seq(children, name, attrs, rest);
                assert(2 * ts.skip(1).len() + 2 == 2 * ts.len());
                assert(kids(ts.skip(1), name) == KidsRes::Built(
                    children,
                    tag_seqs_of(children).len() + 1,
                ));
                assert(kids_at(ts.skip(1), name, (2 * ts.len() + 1 - 1) as nat) == kids(
                    ts.skip(1),
                    name,
                ));
                assert(v == (XmlView::Element { name, attrs, children }));
                assert(build(ts) == BuildRes::Built(
                    XmlView::Element { name, attrs, children },
                    tag_seq_of(v).len(),
                ));
            }
        },
    }
}

proof fn lemma_kids_tag_seq(
    cs: Seq<XmlView>,
    name: Seq<char>,
    attrs: Seq<(Seq<char>, Seq<char>)>,
    rest: Seq<GTag>,
)
    ensures
        kids(
            tag_seqs_of(cs) + seq![
                GTag::Tag { name, attrs: Seq::empty(), kind: TagKind::Closing },
            ] + rest,
            name,
        ) == KidsRes::Built(cs, tag_seqs_of(cs).len() + 1),
    decreases cs,
{
    let closer = GTag::Tag { name, attrs: Seq::empty(), kind: TagKind::Closing };
    let ts = tag_seqs_of(cs) + seq![closer] + rest;
    if cs.len() == 0 {
        assert(ts[0] == closer);
        assert(cs =~= Seq::<XmlView>::empty());
    } else {
        let c0 = cs[0];
        let rest2 = tag_seqs_of(cs.drop_first()) + seq![closer] + rest;
        assert(ts =~= tag_seq_of(c0) + rest2);
        lemma_tag_seq_len(c0);
        assert(ts[0] == tag_seq_of(c0)[0]);
        assert(!(ts[0] matches GTag::Tag { kind: TagKind::Closing, .. })) by {
            match c0 {
                XmlView::Text(_) => {},
                XmlView::Element { children, .. } => {},
            }
        }
        lemma_build_tag_seq(c0, rest2);
        let u = tag_seq_of(c0).len();
        lemma_kids_tail(ts, name, u);
        assert(ts.skip(u as int) =~= rest2);
        lemma_kids_tag_seq(cs.drop_first(), name, attrs, rest);
        assert(ts.skip(u as int) =~= tag_seqs_of(cs.drop_first()) + seq![closer] + rest);
        assert(kids(ts.skip(u as int), name) == KidsRes::Built(
            cs.drop_first(),
            tag_seqs_of(cs.drop_first()).len() + 1,
        ));
        assert(seq![c0] + cs.drop_first() =~= cs);
        assert(build_at(ts, (2 * ts.len() + 2 - 1) as nat) == build(ts));
        assert(build(ts) == BuildRes::Built(c0, u));
        assert(kids(ts, name) == KidsRes::Built(
            seq![c0] + cs.drop_first(),
            u + (tag_seqs_of(cs.drop_first()).len() + 1),
        ));
        assert(tag_seqs_of(cs).len() == u + tag_seqs_of(cs.drop_first()).len());
    }
}

/// An element spelled as an opening tag immediately followed by its equally
/// named closing tag builds to the same childless element that the
/// self-closing spelling gives, whatever follows the pair.
pub proof fn lemma_build_open_close(
    name: Seq<char>,
    attrs: Seq<(Seq<char>, Seq<char>)>,
    cattrs: Seq<(Seq<char>, Seq<char>)>,
    rest: Seq<GTag>,
)
    ensures
        build(
            seq![
                GTag::Tag { name, attrs, kind: TagKind::Opening },
                GTag::Tag { name, attrs: cattrs, kind: TagKind::Closing },
            ] + rest,
        ) == BuildRes::Built(XmlView::Element { name, attrs, children: Seq::empty() }, 2),
{
    let ts = seq![
        GTag::Tag { name, attrs, kind: TagKind::Opening },
        GTag::Tag { name, attrs: cattrs, kind: TagKind::Closing },
    ] + rest;
    assert(ts.len() == 2 + rest.len());
    assert(ts[0] == (GTag::Tag { name, attrs, kind: TagKind::Opening }));
    assert(ts.skip(1)[0] == (GTag::Tag { name, attrs: cattrs, kind: TagKind::Closing }));
    assert(kids_at(ts.skip(1), name, 2 * ts.len()) == KidsRes::Built(Seq::empty(), 1));
}

/// What parsing a whole input text yields: the tree built from its tag
/// stream, or the error met.  (The `Out` arm is unreachable:
/// [`lemma_build_total`].)
pub open spec fn spec_document(s: Seq<char>) -> Result<XmlView, ErrorView> {
    match build(spec_tags(s)) {
        BuildRes::Built(v, u) => Ok(v),
        BuildRes::Failed(e) => Err(e),
        BuildRes::Out => Err(ErrorView::Eof),
    }
}

/// Children already built, tags already consumed, and the rest of a
/// children run, combined into one result.
pub open spec fn kids_join(acc: Seq<XmlView>, c: nat, r: KidsRes) -> KidsRes {
    match r {
        KidsRes::Built(cs, u) => KidsRes::Built(acc + cs, c + u),
        _ => r,
    }
}

proof fn lemma_kids_join_zero(r: KidsRes)
    ensures
        kids_join(Seq::empty(), 0, r) == r,
{
    match r {
        KidsRes::Built(cs, u) => {
            assert(Seq::<XmlView>::empty() + cs =~= cs);
        },
        _ => {},
    }
}

proof fn lemma_kids_join_assoc(a: Seq<XmlView>, ca: nat, b: Seq<XmlView>, cb: nat, r: KidsRes)
    ensures
        kids_join(a, ca, kids_join(b, cb, r)) == kids_join(a + b, ca + cb, r),
{
    match r {
        KidsRes::Built(cs, u) => {
            assert(a + (b + cs) =~= (a + b) + cs);
        },
        _ => {},
    }
}

proof fn lemma_prefix_extend(a: Seq<ErrorView>, b: Seq<ErrorView>)
    ensures
        a.is_prefix_of(a + b),
{
    assert(a =~= (a + b).subrange(0, a.len() as int));
}

proof fn lemma_prefix_trans(a: Seq<ErrorView>, b: Seq<ErrorView>, c: Seq<ErrorView>)
    requires
        a.is_prefix_of(b),
        b.is_prefix_of(c),
    ensures
        a.is_prefix_of(c),
{
    assert(a =~= c.subrange(0, a.len() as int));
}

/// Make an owned copy of a borrowed attribute list, preserving its view.
fn attrs_to_owned(attrs: &Vec<(&str, &str)>) -> (r: Vec<(String, String)>)
    ensures
        attrs_deep(r@) == attrs_view(attrs@),
{
    let mut r: Vec<(String, String)> = Vec::new();
    let n = attrs.len();
    let mut i: usize = 0;
    while i < n
        invariant
            i <= n,
            n == attrs.len(),
            attrs_deep(r@) == attrs_view(attrs@.take(i as int)),
        decreases n - i,
    {
        let (k, v) = attrs[i];
        let ko = k.to_owned();
        let vo = v.to_owned();
        let ghost rpre = r@;
        proof {
            assert(ko@ == attrs@[i as int].0@);
            assert(vo@ == attrs@[i as int].1@);
            assert(attrs_deep(rpre).len() == rpre.len());
            assert(attrs_deep(rpre).len() == i);
        }
        r.push((ko, vo));
        proof {
            assert(r@ == rpre.push((ko, vo)));
            assert forall|j: int| 0 <= j < i + 1 implies attrs_deep(r@)[j] == attrs_view(
                attrs@.take(i as int + 1),
            )[j] by {
                assert(attrs_deep(r@)[j] == (r@[j].0@, r@[j].1@));
                assert(attrs_view(attrs@.take(i as int + 1))[j] == (
                    attrs@.take(i as int + 1)[j].0@,
                    attrs@.take(i as int + 1)[j].1@,
                ));
                if j < i {
                    assert(r@[j] == rpre[j]);
                    assert(attrs_deep(rpre)[j] == attrs_view(attrs@.take(i as int))[j]);
                    assert(attrs@.take(i as int)[j] == attrs@.take(i as int + 1)[j]);
                }
            }
            assert(attrs_deep(r@) =~= attrs_view(attrs@.take(i as int + 1)));
        }
        i = i + 1;
    }
    proof {
        assert(attrs@.take(n as int) =~= attrs@);
    }
    r
}

/// Look an attribute up in an owned attribute list.
fn oattrs_find<'s>(attrs: &'s Vec<(String, String)>, key: &str) -> (r: Option<&'s str>)
    ensures
        match r {
            Some(v) => alookup(attrs_deep(attrs@), key@) == Some(v@),
            None => alookup(attrs_deep(attrs@), key@) is None,
        },
{
    let ghost vs = attrs_deep(attrs@);
    proof {
        assert(vs.skip(0) =~= vs);
    }
    let n = attrs.len();
    let mut i: usize = 0;
    while i < n
        invariant
            i <= n,
            n == attrs.len(),
            vs == attrs_deep(attrs@),
            alookup(vs, key@) == alookup(vs.skip(i as int), key@),
        decreases n - i,
    {
        let p = &attrs[i];
        proof {
            assert(vs.skip(i as int)[0] == vs[i as int]);
            assert(vs[i as int] == (p.0@, p.1@));
            assert(vs.skip(i as int).drop_first() =~= vs.skip(i as int + 1));
        }
        if crate::token::str_eq(p.0.as_str(), key) {
            return Some(attrs[i].1.as_str());
        }
        i = i + 1;
    }
    proof {
        assert(vs.skip(n as int).len() == 0);
    }
    None
}

/// Insert into an owned attribute list, replacing in place or appending:
/// last write wins.
fn oattrs_upsert(attrs: &mut Vec<(String, String)>, key: &str, value: &str)
    ensures
        attrs_deep(final(attrs)@) == aupsert(attrs_deep(old(attrs)@), key@, value@),
{
    let ghost vs = attrs_deep(attrs@);
    let n = attrs.len();
    let mut i: usize = 0;
    while i < n
        invariant
            i <= n,
            n == attrs.len(),
            attrs == old(attrs),
            vs == attrs_deep(attrs@),
            forall|j: int| 0 <= j < i ==> vs[j].0 != key@,
        decreases n - i,
    {
        let hit = crate::token::str_eq(attrs[i].0.as_str(), key);
        proof {
            assert(vs[i as int] == (attrs@[i as int].0@, attrs@[i as int].1@));
        }
        if hit {
            attrs.set(i, (key.to_owned(), value.to_owned()));
            proof {
                crate::tag::lemma_aupsert_at(vs, key@, value@, i as int);
                assert(attrs_deep(attrs@) =~= vs.update(i as int, (key@, value@)));
            }
            return ;
        }
        i = i + 1;
    }
    attrs.push((key.to_owned(), value.to_owned()));
    proof {
        crate::tag::lemma_aupsert_missing(vs, key@, value@);
        assert(attrs_deep(attrs@) =~= vs.push((key@, value@)));
    }
}

/// Equality of attribute lists, decided pairwise against the views.
fn attrs_eq(a: &Vec<(String, String)>, b: &Vec<(String, String)>) -> (r: bool)
    ensures
        r == (attrs_deep(a@) == attrs_deep(b@)),
{
    let n = a.len();
    if n != b.len() {
        return false;
    }
    let mut i: usize = 0;
    while i < n
        invariant
            i <= n,
            n == a.len(),
            n == b.len(),
            forall|j: int| 0 <= j < i ==> attrs_deep(a@)[j] == attrs_deep(b@)[j],
        decreases n - i,
    {
        if !crate::token::str_eq(a[i].0.as_str(), b[i].0.as_str()) {
            proof {
                assert(attrs_deep(a@)[i as int].0 != attrs_deep(b@)[i as int].0);
            }
            return false;
        }
        if !crate::token::str_eq(a[i].1.as_str(), b[i].1.as_str()) {
            proof {
                assert(attrs_deep(a@)[i as int].1 != attrs_deep(b@)[i as int].1);
            }
            return false;
        }
        proof {
            assert(attrs_deep(a@)[i as int] == attrs_deep(b@)[i as int]);
        }
        i = i + 1;
    }
    proof {
        assert(attrs_deep(a@) =~= attrs_deep(b@));
    }
    true
}

/// Structural equality of nodes, decided against the views.
fn xml_eq_rec(a: &Xml, b: &Xml) -> (r: bool)
    ensures
        r == (a@ == b@),
    decreases a@,
{
    match (a, b) {
        (Xml::Text(s), Xml::Text(t)) => crate::token::str_eq(s.as_str(), t.as_str()),
        (
            Xml::Element { name: n1, attrs: a1, children: c1 },
            Xml::Element { name: n2, attrs: a2, children: c2 },
        ) => {
            if !crate::token::str_eq(n1.as_str(), n2.as_str()) {
                return false;
            }
            if !attrs_eq(a1, a2) {
                return false;
            }
            proof {
                assert(decreases_to!(a@ => a@->children));
            }
            kids_eq_rec(c1, c2, Ghost(a@->children))
        },
        _ => false,
    }
}

/// Structural equality of child lists.
fn kids_eq_rec(x: &Vec<Xml>, y: &Vec<Xml>, Ghost(m): Ghost<Seq<XmlView>>) -> (r: bool)
    requires
        m == xml_views(x@),
    ensures
        r == (xml_views(x@) == xml_views(y@)),
    decreases m,
{
    proof {
        lemma_xml_views(x@);
        lemma_xml_views(y@);
    }
    let n = x.len();
    if n != y.len() {
        return false;
    }
    let mut i: usize = 0;
    while i < n
        invariant
            i <= n,
            n == x.len(),
            n == y.len(),
            m == xml_views(x@),
            forall|j: int| 0 <= j < i ==> xml_views(x@)[j] == xml_views(y@)[j],
        decreases n - i,
    {
        proof {
            lemma_xml_views(x@);
            lemma_xml_views(y@);
            assert(x@[i as int]@ == m[i as int]);
            assert(decreases_to!(m => m[i as int]));
        }
        if !xml_eq_rec(&x[i], &y[i]) {
            proof {
                assert(xml_views(x@)[i as int] != xml_views(y@)[i as int]);
            }
            return false;
        }
        i = i + 1;
    }
    proof {
        lemma_xml_views(x@);
        lemma_xml_views(y@);
        assert(xml_views(x@) =~= xml_views(y@));
    }
    true
}

impl PartialEq for Xml {
    /// Structural equality: same variant, name, attributes in order, and
    /// children, recursively.
    fn eq(&self, other: &Xml) -> (r: bool) {
        xml_eq_rec(self, other)
    }
}

impl vstd::std_specs::cmp::PartialEqSpecImpl for Xml {
    open spec fn obeys_eq_spec() -> bool {
        true
    }

    open spec fn eq_spec(&self, other: &Xml) -> bool {
        self@ == other@
    }
}

/// A mutable reference to the value of the `i`-th attribute.
fn pair_value_mut(attrs: &mut Vec<(String, String)>, i: usize) -> (v: &mut String)
    requires
        i < old(attrs)@.len(),
    ensures
        *v == old(attrs)@[i as int].1,
        final(attrs)@ == old(attrs)@.update(i as int, (old(attrs)@[i as int].0, *final(v))),
{
    let entry = &mut attrs[i];
    &mut entry.1
}

proof fn lemma_attrs_deep_update(ps: Seq<(String, String)>, i: int, p: (String, String))
    requires
        0 <= i < ps.len(),
    ensures
        attrs_deep(ps.update(i, p)) == attrs_deep(ps).update(i, (p.0@, p.1@)),
{
    assert(attrs_deep(ps.update(i, p)) =~= attrs_deep(ps).update(i, (p.0@, p.1@)));
}


/// The position of an attribute in an owned attribute list.
fn attrs_position(attrs: &Vec<(String, String)>, key: &str) -> (r: Option<usize>)
    ensures
        match r {
            Some(i) => i < attrs@.len() && attrs_deep(attrs@)[i as int].0 == key@ && (forall|
                j: int,
            |
                0 <= j < i ==> attrs_deep(attrs@)[j].0 != key@) && alookup(
                attrs_deep(attrs@),
                key@,
            ) == Some(attrs_deep(attrs@)[i as int].1),
            None => alookup(attrs_deep(attrs@), key@) is None,
        },
{
    let ghost vs = attrs_deep(attrs@);
    proof {
        assert(vs.skip(0) =~= vs);
    }
    let n = attrs.len();
    let mut i: usize = 0;
    while i < n
        invariant
            i <= n,
            n == attrs.len(),
            vs == attrs_deep(attrs@),
            alookup(vs, key@) == alookup(vs.skip(i as int), key@),
            forall|j: int| 0 <= j < i ==> vs[j].0 != key@,
        decreases n - i,
    {
        let hit = crate::token::str_eq(attrs[i].0.as_str(), key);
        proof {
            assert(vs.skip(i as int)[0] == vs[i as int]);
            assert(vs[i as int] == (attrs@[i as int].0@, attrs@[i as int].1@));
            assert(vs.skip(i as int).drop_first() =~= vs.skip(i as int + 1));
        }
        if hit {
            return Some(i);
        }
        i = i + 1;
    }
    proof {
        assert(vs.skip(n as int).len() == 0);
    }
    None
}

impl Xml {
    /// Create a new text node.
    pub fn text(text: &str) -> (r: Xml)
        ensures
            r@ == XmlView::Text(text@),
    {
        Xml::Text(text.to_owned())
    }

    /// Create a new element node with no attributes and no children.
    pub fn element(name: &str) -> (r: Xml)
        ensures
            r@ == (XmlView::Element {
                name: name@,
                attrs: Seq::empty(),
                children: Seq::empty(),
            }),
    {
        let r = Xml::Element { name: name.to_owned(), attrs: Vec::new(), children: Vec::new() };
        proof {
            assert(r@.vattrs() =~= Seq::<(Seq<char>, Seq<char>)>::empty());
            assert(r@.vkids() =~= Seq::<XmlView>::empty());
        }
        r
    }

    /// Check if the node is a text node.
    pub fn is_text(&self) -> (r: bool)
        ensures
            r == self@.is_text(),
    {
        matches!(self, Xml::Text(_))
    }

    /// Check if the node is an element.
    pub fn is_element(&self) -> (r: bool)
        ensures
            r == self@.is_element(),
    {
        matches!(self, Xml::Element { .. })
    }

    /// Get the element name: `Some` exactly for elements.
    pub fn name(&self) -> (r: Option<&str>)
        ensures
            match r {
                Some(n) => self@.is_element() && n@ == self@.vname(),
                None => !self@.is_element(),
            },
    {
        if let Xml::Element { name, .. } = self {
            Some(name.as_str())
        } else {
            None
        }
    }

    /// Get an attribute's raw value: `Some` exactly when this is an element
    /// carrying that attribute.
    pub fn attr(&self, key: &str) -> (r: Option<&str>)
        ensures
            match r {
                Some(v) => self@.is_element() && alookup(self@.vattrs(), key@) == Some(v@),
                None => !self@.is_element() || alookup(self@.vattrs(), key@) is None,
            },
    {
        if let Xml::Element { attrs, .. } = self {
            oattrs_find(attrs, key)
        } else {
            None
        }
    }

    /// Get the text content: `Some` exactly for text nodes.
    pub fn content(&self) -> (r: Option<&str>)
        ensures
            match r {
                Some(t) => self@.is_text() && t@ == self@.vtext(),
                None => !self@.is_text(),
            },
    {
        if let Xml::Text(text) = self {
            Some(text.as_str())
        } else {
            None
        }
    }

    /// Add an attribute to an element (replacing an equally named one) and
    /// return the node; a text node is returned unchanged.
    pub fn with_attr(self, key: &str, value: &str) -> (r: Xml)
        ensures
            self@ is Element ==> r@ == (XmlView::Element {
                name: self@.vname(),
                attrs: aupsert(self@.vattrs(), key@, value@),
                children: self@.vkids(),
            }),
            self@ is Text ==> r@ == self@,
    {
        match self {
            Xml::Element { name, mut attrs, children } => {
                oattrs_upsert(&mut attrs, key, value);
                Xml::Element { name, attrs, children }
            },
            t => t,
        }
    }

    /// Append a child to an element and return the node; a text node is
    /// returned unchanged.
    pub fn with_child(self, child: Xml) -> (r: Xml)
        ensures
            self@ is Element ==> r@ == (XmlView::Element {
                name: self@.vname(),
                attrs: self@.vattrs(),
                children: self@.vkids().push(child@),
            }),
            self@ is Text ==> r@ == self@,
    {
        match self {
            Xml::Element { name, attrs, mut children } => {
                let ghost pre = children@;
                children.push(child);
                proof {
                    lemma_xml_views(pre.push(child));
                    lemma_xml_views(pre);
                    assert(xml_views(pre.push(child)) =~= xml_views(pre).push(xml_view(child)));
                }
                Xml::Element { name, attrs, children }
            },
            t => t,
        }
    }

    /// Get a mutable reference to an attribute's value: `Some` exactly when
    /// this is an element carrying that attribute.  Writing through it
    /// replaces that one value and touches nothing else.
    pub fn attr_mut(&mut self, key: &str) -> (r: Option<&mut String>)
        ensures
            !(old(self)@.is_element() && alookup(old(self)@.vattrs(), key@) is Some) ==> r
                is None && *final(self) == *old(self),
            old(self)@.is_element() && alookup(old(self)@.vattrs(), key@) is Some ==> r is Some
                && alookup(old(self)@.vattrs(), key@) == Some((*r.unwrap())@) && final(self)@
                == (XmlView::Element {
                name: old(self)@.vname(),
                attrs: aupsert(old(self)@.vattrs(), key@, (*final(r.unwrap()))@),
                children: old(self)@.vkids(),
            }),
    {
        match self {
            Xml::Text(_) => None,
            Xml::Element { attrs, .. } => {
                let ghost vs = attrs_deep(attrs@);
                match attrs_position(attrs, key) {
                    None => None,
                    Some(i) => {
                        let ghost apre = attrs@;
                        let v = pair_value_mut(attrs, i);
                        proof {
                            let nv = *final(v);
                            lemma_attrs_deep_update(apre, i as int, (apre[i as int].0, nv));
                            crate::tag::lemma_aupsert_at(vs, key@, nv@, i as int);
                        }
                        Some(v)
                    },
                }
            },
        }
    }

    /// The element's direct children, in document order: `Some` exactly for
    /// elements.
    pub fn children(&self) -> (r: Option<&Vec<Xml>>)
        ensures
            match r {
                Some(cs) => self@.is_element() && xml_views(cs@) == self@.vkids(),
                None => !self@.is_element(),
            },
    {
        if let Xml::Element { children, .. } = self {
            Some(children)
        } else {
            None
        }
    }

    /// Mutable access to an element's children.  Writing through the
    /// reference changes only the children; name and attributes stay.
    pub fn children_mut(&mut self) -> (r: Option<&mut Vec<Xml>>)
        ensures
            !old(self)@.is_element() ==> r is None && *final(self) == *old(self),
            old(self)@.is_element() ==> r is Some && xml_views((*r.unwrap())@) == old(
                self,
            )@.vkids() && final(self)@ == (XmlView::Element {
                name: old(self)@.vname(),
                attrs: old(self)@.vattrs(),
                children: xml_views((*final(r.unwrap()))@),
            }),
    {
        match self {
            Xml::Text(_) => None,
            Xml::Element { children, .. } => Some(children),
        }
    }

    /// All descendants of this node, excluding the node itself, in
    /// pre-order, depth first.  Each call delivers a fresh pass.
    pub fn descendants(&self) -> (r: Vec<&Xml>)
        ensures
            ref_views(r@) == spec_descendants(self@),
    {
        let mut out: Vec<&Xml> = Vec::new();
        proof {
            assert(ref_views(out@) =~= Seq::<XmlView>::empty());
        }
        push_descendants(self, &mut out);
        proof {
            assert(Seq::<XmlView>::empty() + spec_descendants(self@) =~= spec_descendants(
                self@,
            ));
        }
        out
    }
}

/// The canonical rendering of a node: an element with no children renders
/// self-closing, one with children renders its children between its opening
/// and closing tags; attribute values are surrounded by double quotes and
/// nothing is escaped (so a `"` inside an attribute value does not survive a
/// round trip).
pub open spec fn spec_render(v: XmlView) -> Seq<char>
    decreases v,
{
    match v {
        XmlView::Text(t) => t,
        XmlView::Element { name, attrs, children } => seq!['<'] + name + spec_render_attrs(attrs)
            + (if children.len() == 0 {
            seq!['/', '>']
        } else {
            seq!['>'] + spec_render_kids(children) + seq!['<', '/'] + name + seq!['>']
        }),
    }
}

pub open spec fn spec_render_attrs(ps: Seq<(Seq<char>, Seq<char>)>) -> Seq<char>
    decreases ps,
{
    if ps.len() == 0 {
        Seq::empty()
    } else {
        seq![' '] + ps[0].0 + seq!['=', '"'] + ps[0].1 + seq!['"'] + spec_render_attrs(
            ps.drop_first(),
        )
    }
}

pub open spec fn spec_render_kids(cs: Seq<XmlView>) -> Seq<char>
    decreases cs,
{
    if cs.len() == 0 {
        Seq::empty()
    } else {
        spec_render(cs[0]) + spec_render_kids(cs.drop_first())
    }
}

proof fn lemma_render_attrs_step(ps: Seq<(Seq<char>, Seq<char>)>, i: int)
    requires
        0 <= i < ps.len(),
    ensures
        spec_render_attrs(ps.take(i + 1)) == spec_render_attrs(ps.take(i)) + (seq![' '] + ps[i].0
            + seq!['=', '"'] + ps[i].1 + seq!['"']),
    decreases i,
{
    if i == 0 {
        assert(ps.take(1)[0] == ps[0]);
        assert(ps.take(1).drop_first() =~= Seq::<(Seq<char>, Seq<char>)>::empty());
        assert(ps.take(0) =~= Seq::<(Seq<char>, Seq<char>)>::empty());
        assert(spec_render_attrs(ps.take(1)) =~= spec_render_attrs(ps.take(0)) + (seq![' ']
            + ps[0].0 + seq!['=', '"'] + ps[0].1 + seq!['"']));
    } else {
        let d = ps.drop_first();
        lemma_render_attrs_step(d, i - 1);
        assert(ps.take(i + 1).drop_first() =~= d.take(i));
        assert(ps.take(i).drop_first() =~= d.take(i - 1));
        assert(ps.take(i + 1)[0] == ps[0]);
        assert(ps.take(i)[0] == ps[0]);
        assert(d[i - 1] == ps[i]);
        assert(spec_render_attrs(ps.take(i + 1)) =~= spec_render_attrs(ps.take(i)) + (seq![' ']
            + ps[i].0 + seq!['=', '"'] + ps[i].1 + seq!['"']));
    }
}

proof fn lemma_render_kids_step(cs: Seq<XmlView>, i: int)
    requires
        0 <= i < cs.len(),
    ensures
        spec_render_kids(cs.take(i + 1)) == spec_render_kids(cs.take(i)) + spec_render(cs[i]),
    decreases i,
{
    if i == 0 {
        assert(cs.take(1)[0] == cs[0]);
        assert(cs.take(1).drop_first() =~= Seq::<XmlView>::empty());
        assert(cs.take(0) =~= Seq::<XmlView>::empty());
        assert(spec_render_kids(cs.take(1)) =~= spec_render_kids(cs.take(0)) + spec_render(
            cs[0],
        ));
    } else {
        let d = cs.drop_first();
        lemma_render_kids_step(d, i - 1);
        assert(cs.take(i + 1).drop_first() =~= d.take(i));
        assert(cs.take(i).drop_first() =~= d.take(i - 1));
        assert(cs.take(i + 1)[0] == cs[0]);
        assert(cs.take(i)[0] == cs[0]);
        assert(d[i - 1] == cs[i]);
        assert(spec_render_kids(cs.take(i + 1)) =~= spec_render_kids(cs.take(i)) + spec_render(
            cs[i],
        ));
    }
}

impl Xml {
    /// Render the node back to text, canonically: [`spec_render`] says
    /// exactly what comes out.
    #[verifier::rlimit(100)]
    pub fn render(&self) -> (r: String)
        ensures
            r@ == spec_render(self@),
        decreases self@,
    {
        match self {
            Xml::Text(t) => t.clone(),
            Xml::Element { name, attrs, children } => {
                proof {
                    reveal_strlit("<");
                    reveal_strlit(">");
                    reveal_strlit("/>");
                    reveal_strlit("</");
                    reveal_strlit(" ");
                    reveal_strlit("=\"");
                    reveal_strlit("\"");
                    assert("<"@ =~= seq!['<']);
                    assert(">"@ =~= seq!['>']);
                    assert("/>"@ =~= seq!['/', '>']);
                    assert("</"@ =~= seq!['<', '/']);
                    assert(" "@ =~= seq![' ']);
                    assert("=\""@ =~= seq!['=', '"']);
                    assert("\""@ =~= seq!['"']);
                }
                let ghost avs = attrs_deep(attrs@);
                let ghost kviews = xml_views(children@);
                proof {
                    lemma_xml_views(children@);
                }
                let mut s = String::new();
                s.append("<");
                s.append(name.as_str());
                proof {
                    assert(avs.take(0) =~= Seq::<(Seq<char>, Seq<char>)>::empty());
                    assert(s@ =~= seq!['<'] + name@ + spec_render_attrs(avs.take(0)));
                }
                let n = attrs.len();
                let mut i: usize = 0;
                while i < n
                    invariant
                        i <= n,
                        n == attrs.len(),
                        avs == attrs_deep(attrs@),
                        s@ == seq!['<'] + name@ + spec_render_attrs(avs.take(i as int)),
                    decreases n - i,
                {
                    proof {
                        reveal_strlit(" ");
                        reveal_strlit("=\"");
                        reveal_strlit("\"");
                    }
                    s.append(" ");
                    s.append(attrs[i].0.as_str());
                    s.append("=\"");
                    s.append(attrs[i].1.as_str());
                    s.append("\"");
                    proof {
                        lemma_render_attrs_step(avs, i as int);
                        assert(avs[i as int] == (attrs@[i as int].0@, attrs@[i as int].1@));
                        assert(" "@ =~= seq![' ']);
                        assert("=\""@ =~= seq!['=', '"']);
                        assert("\""@ =~= seq!['"']);
                        assert(s@ =~= seq!['<'] + name@ + spec_render_attrs(
                            avs.take(i as int + 1),
                        ));
                    }
                    i = i + 1;
                }
                proof {
                    assert(avs.take(n as int) =~= avs);
                }
                if children.len() == 0 {
                    s.append("/>");
                    proof {
                        assert(s@ =~= spec_render(self@));
                    }
                    s
                } else {
                    s.append(">");
                    proof {
                        assert(kviews.take(0) =~= Seq::<XmlView>::empty());
                        assert(s@ =~= seq!['<'] + name@ + spec_render_attrs(avs) + seq!['>']
                            + spec_render_kids(kviews.take(0)));
                    }
                    let m = children.len();
                    let mut j: usize = 0;
                    while j < m
                        invariant
                            j <= m,
                            m == children.len(),
                            avs == attrs_deep(attrs@),
                            kviews == xml_views(children@),
                            kviews.len() == m,
                            forall|k: int| 0 <= k < m ==> kviews[k] == xml_view(children@[k]),
                            self@ == (XmlView::Element {
                                name: name@,
                                attrs: avs,
                                children: kviews,
                            }),
                            s@ == seq!['<'] + name@ + spec_render_attrs(avs) + seq!['>']
                                + spec_render_kids(kviews.take(j as int)),
                        decreases m - j,
                    {
                        proof {
                            assert(children@[j as int]@ == self@->children[j as int]);
                            assert(decreases_to!(self@ => self@->children[j as int]));
                        }
                        let cr = children[j].render();
                        s.append(cr.as_str());
                        proof {
                            lemma_render_kids_step(kviews, j as int);
                            assert(s@ =~= seq!['<'] + name@ + spec_render_attrs(avs) + seq!['>']
                                + spec_render_kids(kviews.take(j as int + 1)));
                        }
                        j = j + 1;
                    }
                    s.append("</");
                    s.append(name.as_str());
                    s.append(">");
                    proof {
                        reveal_strlit("</");
                        reveal_strlit(">");
                        assert("</"@ =~= seq!['<', '/']);
                        assert(">"@ =~= seq!['>']);
                        assert(kviews.take(m as int) =~= kviews);
                        assert(s@ =~= spec_render(self@));
                    }
                    s
                }
            },
        }
    }
}

/// The descendants of a node, excluding itself: each child followed by that
/// child's own descendants.
pub open spec fn spec_descendants(v: XmlView) -> Seq<XmlView>
    decreases v,
{
    match v {
        XmlView::Text(_) => Seq::empty(),
        XmlView::Element { children, .. } => descendants_of(children),
    }
}

pub open spec fn descendants_of(cs: Seq<XmlView>) -> Seq<XmlView>
    decreases cs,
{
    if cs.len() == 0 {
        Seq::empty()
    } else {
        seq![cs[0]] + spec_descendants(cs[0]) + descendants_of(cs.drop_first())
    }
}

/// Descendant traversal is repeatable: the pre-order descendant sequence is
/// a function of the tree alone, so two passes over an unmodified tree
/// yield the same nodes in the same order.  (`Xml::descendants` pins its
/// result to `spec_descendants`, so this covers any two of its calls.)
pub proof fn lemma_descendants_repeatable(v: XmlView, d1: Seq<XmlView>, d2: Seq<XmlView>)
    requires
        d1 == spec_descendants(v),
        d2 == spec_descendants(v),
    ensures
        d1 == d2,
{
}

/// The views of a sequence of borrowed nodes.
pub open spec fn ref_views(v: Seq<&Xml>) -> Seq<XmlView>
    decreases v,
{
    if v.len() == 0 {
        Seq::empty()
    } else {
        seq![xml_view(*v[0])] + ref_views(v.drop_first())
    }
}

/// `ref_views` maps `xml_view` over the sequence, element by element.
proof fn lemma_ref_views(v: Seq<&Xml>)
    ensures
        ref_views(v).len() == v.len(),
        forall|i: int| 0 <= i < v.len() ==> ref_views(v)[i] == xml_view(*v[i]),
    decreases v.len(),
{
    if v.len() == 0 {
    } else {
        lemma_ref_views(v.drop_first());
        assert forall|i: int| 0 <= i < v.len() implies ref_views(v)[i] == xml_view(*v[i]) by {
            if i > 0 {
                assert(ref_views(v.drop_first())[i - 1] == xml_view(*v.drop_first()[i - 1]));
            }
        }
    }
}

/// Splitting a children run after its first `i` children.
proof fn lemma_descendants_of_step(cs: Seq<XmlView>, i: int)
    requires
        0 <= i < cs.len(),
    ensures
        descendants_of(cs.take(i + 1)) == descendants_of(cs.take(i)) + (seq![cs[i]]
            + spec_descendants(cs[i])),
    decreases i,
{
    if i == 0 {
        assert(cs.take(1) =~= seq![cs[0]]);
        assert(cs.take(1).drop_first() =~= Seq::<XmlView>::empty());
        assert(cs.take(0) =~= Seq::<XmlView>::empty());
        assert(descendants_of(cs.take(1)) =~= descendants_of(cs.take(0)) + (seq![cs[0]]
            + spec_descendants(cs[0])));
    } else {
        let d = cs.drop_first();
        lemma_descendants_of_step(d, i - 1);
        assert(cs.take(i + 1).drop_first() =~= d.take(i));
        assert(cs.take(i).drop_first() =~= d.take(i - 1));
        assert(cs.take(i + 1)[0] == cs[0]);
        assert(cs.take(i)[0] == cs[0]);
        assert(d[i - 1] == cs[i]);
        assert(descendants_of(cs.take(i + 1)) =~= descendants_of(cs.take(i)) + (seq![cs[i]]
            + spec_descendants(cs[i])));
    }
}

/// Append the descendants of `x` (children first, each followed by its own
/// descendants) to `out`.
fn push_descendants<'x>(x: &'x Xml, out: &mut Vec<&'x Xml>)
    ensures
        ref_views(final(out)@) == ref_views(old(out)@) + spec_descendants(x@),
    decreases x@,
{
    match x {
        Xml::Text(_) => {
            proof {
                assert(ref_views(out@) + spec_descendants(x@) =~= ref_views(out@));
            }
        },
        Xml::Element { children, .. } => {
            let ghost kviews = xml_views(children@);
            let ghost out0 = out@;
            proof {
                lemma_xml_views(children@);
                assert(kviews.take(0) =~= Seq::<XmlView>::empty());
                assert(ref_views(out0) + descendants_of(kviews.take(0)) =~= ref_views(out0));
            }
            let n = children.len();
            let mut i: usize = 0;
            while i < n
                invariant
                    i <= n,
                    n == children.len(),
                    kviews == xml_views(children@),
                    kviews.len() == n,
                    forall|j: int| 0 <= j < n ==> kviews[j] == xml_view(children@[j]),
                    x@ == (XmlView::Element {
                        name: x@.vname(),
                        attrs: x@.vattrs(),
                        children: kviews,
                    }),
                    ref_views(out@) == ref_views(out0) + descendants_of(kviews.take(i as int)),
                decreases n - i,
            {
                let c = &children[i];
                let ghost mid = out@;
                out.push(c);
                proof {
                    lemma_ref_views(mid.push(c));
                    lemma_ref_views(mid);
                    assert(ref_views(mid.push(c)) =~= ref_views(mid) + seq![xml_view(*c)]);
                    assert(c@ == x@->children[i as int]);
                    assert(decreases_to!(x@ => x@->children[i as int]));
                }
                push_descendants(c, out);
                proof {
                    lemma_descendants_of_step(kviews, i as int);
                    assert(ref_views(out@) =~= ref_views(out0) + descendants_of(
                        kviews.take(i as int + 1),
                    ));
                }
                i = i + 1;
            }
            proof {
                assert(kviews.take(n as int) =~= kviews);
            }
        },
    }
}

/// Build one element (or text node) from the tag stream, consuming tags
/// recursively: the executable form of [`build`].
///
/// Declarations before the node are skipped; a closing tag in opening
/// position, a mismatched closer, and a truncated input are the three
/// errors.  Recovered syntax errors never surface here: they are in the
/// stream's diagnostics.
#[verifier::rlimit(100)]
pub(crate) fn element(tags: &mut Tags) -> (r: Result<Xml, Error>)
    requires
        old(tags).wf(),
    ensures
        final(tags).wf(),
        match r {
            Ok(x) => build(old(tags).gtags()) matches BuildRes::Built(v, u) && x@ == v
                && final(tags).gtags() == old(tags).gtags().skip(u as int),
            Err(e) => build(old(tags).gtags()) matches BuildRes::Failed(ev) && e@ == ev,
        },
        r matches Err(e) ==> ({
            // the input ran out: the whole stream was consumed looking for it
            &&& (e@ is Eof ==> final(tags).gtags().len() == 0)
            // a mismatched closer reports the position where it was met
            &&& (e matches Error::Mismatched { span, .. } ==> span == (
                final(tags).lexer.line,
                final(tags).lexer.column,
            ))
        }),
        old(tags).dviews().is_prefix_of(final(tags).dviews()),
    decreases old(tags).gtags().len(),
{
    let ghost ts0 = old(tags).gtags();
    let t = tags.next();
    let tag = match t {
        None => {
            proof {
                lemma_prefix_extend(old(tags).dviews(), old(tags).step_diags());
            }
            return Err(Error::Eof);
        },
        Some(tag) => tag,
    };
    proof {
        assert(tag@ == ts0[0]);
        assert(tags.gtags() =~= ts0.skip(1));
        lemma_prefix_extend(old(tags).dviews(), old(tags).step_diags());
    }
    match tag {
        Tag::Declaration { .. } => {
            // declarations are skipped transparently
            proof {
                lemma_build_decl(ts0);
            }
            let ghost mid = tags.dviews();
            let r = element(tags);
            proof {
                lemma_prefix_trans(old(tags).dviews(), mid, tags.dviews());
                lemma_build_total(
                    ts0.skip(1),
                    2 * ts0.skip(1).len() + 1,
                    2 * ts0.skip(1).len() + 1,
                );
                match build(ts0.skip(1)) {
                    BuildRes::Built(v, u) => {
                        assert(ts0.skip(1).skip(u as int) =~= ts0.skip(u as int + 1));
                    },
                    _ => {},
                }
            }
            r
        },
        Tag::Text(t) => {
            proof {
                assert(ts0[0] matches GTag::Text(_));
            }
            Ok(Xml::Text(t.to_owned()))
        },
        Tag::Tag { name, attrs, kind } => {
            if kind.is_closing() {
                let e = Error::Mismatched {
                    expected: "any opening tag".to_owned(),
                    found: name.to_owned(),
                    span: tags.report(),
                };
                return Err(e);
            }
            let own_attrs = attrs_to_owned(&attrs);
            if kind.is_self_closing() {
                let x = Xml::Element {
                    name: name.to_owned(),
                    attrs: own_attrs,
                    children: Vec::new(),
                };
                proof {
                    assert(x@.vkids() =~= Seq::<XmlView>::empty());
                }
                return Ok(x);
            }
            proof {
                assert(ts0[0] == (GTag::Tag {
                    name: name@,
                    attrs: attrs_view(attrs@),
                    kind: TagKind::Opening,
                }));
            }
            let mut children: Vec<Xml> = Vec::new();
            let ghost kid0 = ts0.skip(1);
            let ghost mut consumed: nat = 0;
            proof {
                lemma_kids_join_zero(kids(kid0, name@));
                assert(xml_views(children@) =~= Seq::<XmlView>::empty());
                assert(kid0.skip(0) =~= kid0);
            }
            loop
                invariant
                    tags.wf(),
                    old(tags).wf(),
                    ts0 == old(tags).gtags(),
                    ts0.len() >= 1,
                    ts0[0] == (GTag::Tag {
                        name: name@,
                        attrs: attrs_view(attrs@),
                        kind: TagKind::Opening,
                    }),
                    kid0 == ts0.skip(1),
                    consumed <= kid0.len(),
                    tags.gtags() == kid0.skip(consumed as int),
                    kids(kid0, name@) == kids_join(
                        xml_views(children@),
                        consumed,
                        kids(tags.gtags(), name@),
                    ),
                    attrs_deep(own_attrs@) == attrs_view(attrs@),
                    old(tags).dviews().is_prefix_of(tags.dviews()),
                decreases tags.gtags().len(),
            {
                let ghost cur = tags.gtags();
                let ghost dv0 = tags.dviews();
                let ghost stp = tags.step_diags();
                let t2 = tags.peek();
                proof {
                    lemma_prefix_extend(dv0, stp);
                    lemma_prefix_trans(old(tags).dviews(), dv0, tags.dviews());
                }
                let tag2 = match t2 {
                    None => {
                        // the matching closer was never found
                        return Err(Error::Eof);
                    },
                    Some(tag2) => tag2,
                };
                proof {
                    assert(tag2@ == cur[0]);
                }
                if tag2.is_closing() {
                    let n2 = match tag2.name() {
                        Some(n2) => n2,
                        None => {
                            proof {
                                assert(false);
                            }
                            return Err(Error::Eof);
                        },
                    };
                    if crate::token::str_eq(n2, name) {
                        // the normal termination: consume the closer
                        let ghost dv1 = tags.dviews();
                        let ghost stp1 = tags.step_diags();
                        let _ = tags.next();
                        proof {
                            lemma_prefix_extend(dv1, stp1);
                            lemma_prefix_trans(old(tags).dviews(), dv1, tags.dviews());
                            assert(kids(cur, name@) == KidsRes::Built(Seq::empty(), 1));
                            assert(xml_views(children@) + Seq::<XmlView>::empty() =~= xml_views(
                                children@,
                            ));
                            assert(tags.gtags() =~= ts0.skip(1 + consumed as int + 1));
                        }
                        let x = Xml::Element { name: name.to_owned(), attrs: own_attrs, children };
                        return Ok(x);
                    } else {
                        let e = Error::Mismatched {
                            expected: name.to_owned(),
                            found: n2.to_owned(),
                            span: tags.report(),
                        };
                        proof {
                            assert(kids(cur, name@) == KidsRes::Failed(
                                ErrorView::Mismatched { expected: name@, found: n2@ },
                            ));
                        }
                        return Err(e);
                    }
                } else {
                    // not a closer: build it as a child
                    proof {
                        assert(!(cur[0] matches GTag::Tag { kind: TagKind::Closing, .. }));
                        assert(kids(cur, name@) == (match build(cur) {
                            BuildRes::Built(c, u) => kids_join(
                                seq![c],
                                u,
                                kids_at(cur.skip(u as int), name@, 2 * cur.len() + 1),
                            ),
                            BuildRes::Failed(e) => KidsRes::Failed(e),
                            BuildRes::Out => KidsRes::Out,
                        }));
                        lemma_build_total(cur, 2 * cur.len() + 1, 2 * cur.len() + 1);
                    }
                    let ghost dv1 = tags.dviews();
                    let c = match element(tags) {
                        Ok(c) => c,
                        Err(e) => {
                            proof {
                                lemma_prefix_trans(old(tags).dviews(), dv1, tags.dviews());
                            }
                            return Err(e);
                        },
                    };
                    proof {
                        lemma_prefix_trans(old(tags).dviews(), dv1, tags.dviews());
                    }
                    let ghost pre = children@;
                    children.push(c);
                    proof {
                        match build(cur) {
                            BuildRes::Built(v, u) => {
                                lemma_kids_tail(cur, name@, u);
                                lemma_kids_join_assoc(
                                    xml_views(pre),
                                    consumed,
                                    seq![v],
                                    u,
                                    kids(cur.skip(u as int), name@),
                                );
                                lemma_xml_views(pre.push(c));
                                lemma_xml_views(pre);
                                assert(xml_views(pre.push(c)) =~= xml_views(pre) + seq![
                                    xml_view(c),
                                ]);
                                consumed = consumed + u;
                                assert(kid0.skip(consumed as int) =~= cur.skip(u as int));
                            },
                            _ => {
                                assert(false);
                            },
                        }
                    }
                }
            }
        },
    }
}

} // verus!
