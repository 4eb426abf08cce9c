//! Tag assembler: groups the lexer's tokens into one structural unit per
//! call — a [`Tag`] (name, attributes and open/close/self-close kind), a
//! declaration (`<?...?>`) or literal text — with single-token lookahead and
//! local error recovery.
//!
//! On any unexpected token a syntax diagnostic is recorded, tokens are
//! discarded until the next open-bracket or text token (the resynchronization
//! point), and assembly restarts from there.  Recovery never raises a hard
//! failure.
//!
//! The spec functions [`next_tag`] and [`tags_from`] are the mathematical
//! model: [`Tags::next`] is proved to deliver exactly the stream
//! [`Tags::gtags`] that they describe.

use crate::Error;
use crate::ErrorView;
use crate::token::GTok;
use crate::token::LexState;
use crate::token::Lexer;
use crate::token::Token;
use crate::token::TokenKind;
use crate::token::str_eq;
use crate::token::tokens_from;
use vstd::prelude::*;

verus! {

/// Tag kind.
#[derive(Debug, Clone, Copy, PartialEq, Eq, Hash, Structural)]
pub enum TagKind {
    /// Opening tag (`<...>`)
    Opening,
    /// Closing tag (`</...>`)
    Closing,
    /// Self-closing tag (`<.../>`)
    SelfClosing,
}

/// XML tag or text.  Attribute values are raw: unescaped, quotes stripped;
/// duplicate attribute names keep the last written value.
#[derive(Debug, Clone)]
pub enum Tag<'a> {
    /// Tag.
    Tag {
        /// Tag name.
        name: &'a str,
        /// Tag attributes, in first-occurrence order, names unique.
        attrs: Vec<(&'a str, &'a str)>,
        /// Whether the tag is opening, closing or self-closing.
        kind: TagKind,
    },
    /// Text content.
    Text(&'a str),
    /// Declaration (`<?xml ... ?>`).
    Declaration {
        /// Declaration name (typically just `xml`).
        name: &'a str,
        /// Declaration attributes.
        attrs: Vec<(&'a str, &'a str)>,
    },
}

/// Spec-level view of a [`Tag`].
pub enum GTag {
    Tag { name: Seq<char>, attrs: Seq<(Seq<char>, Seq<char>)>, kind: TagKind },
    Text(Seq<char>),
    Declaration { name: Seq<char>, attrs: Seq<(Seq<char>, Seq<char>)> },
}

/// Insert into an association list: replace the value of an existing name in
/// place, else append.  Last write wins; names stay unique.
pub open spec fn aupsert(
    ps: Seq<(Seq<char>, Seq<char>)>,
    k: Seq<char>,
    v: Seq<char>,
) -> Seq<(Seq<char>, Seq<char>)>
    decreases ps.len(),
{
    if ps.len() == 0 {
        seq![(k, v)]
    } else if ps[0].0 == k {
        seq![(k, v)] + ps.drop_first()
    } else {
        seq![ps[0]] + aupsert(ps.drop_first(), k, v)
    }
}

/// Look a name up in an association list.
pub open spec fn alookup(ps: Seq<(Seq<char>, Seq<char>)>, k: Seq<char>) -> Option<Seq<char>>
    decreases ps.len(),
{
    if ps.len() == 0 {
        None
    } else if ps[0].0 == k {
        Some(ps[0].1)
    } else {
        alookup(ps.drop_first(), k)
    }
}

pub open spec fn attrs_view(v: Seq<(&str, &str)>) -> Seq<(Seq<char>, Seq<char>)> {
    v.map_values(|p: (&str, &str)| (p.0@, p.1@))
}

impl<'a> View for Tag<'a> {
    type V = GTag;

    open spec fn view(&self) -> GTag {
        match self {
            Tag::Tag { name, attrs, kind } => GTag::Tag {
                name: name@,
                attrs: attrs_view(attrs@),
                kind: *kind,
            },
            Tag::Text(t) => GTag::Text(t@),
            Tag::Declaration { name, attrs } => GTag::Declaration {
                name: name@,
                attrs: attrs_view(attrs@),
            },
        }
    }
}

impl GTag {
    /// Is this a tag proper (not text, not a declaration)?
    pub open spec fn is_tag(self) -> bool {
        self matches GTag::Tag { .. }
    }

    pub open spec fn is_text(self) -> bool {
        self matches GTag::Text(_)
    }

    pub open spec fn is_declaration(self) -> bool {
        self matches GTag::Declaration { .. }
    }

    /// The name of a tag or declaration; not meaningful for text.
    pub open spec fn gname(self) -> Seq<char> {
        match self {
            GTag::Tag { name, .. } => name,
            GTag::Declaration { name, .. } => name,
            GTag::Text(t) => t,
        }
    }

    /// The attributes of a tag or declaration; not meaningful for text.
    pub open spec fn gattrs(self) -> Seq<(Seq<char>, Seq<char>)> {
        match self {
            GTag::Tag { attrs, .. } => attrs,
            GTag::Declaration { attrs, .. } => attrs,
            GTag::Text(_) => Seq::empty(),
        }
    }

    /// The kind of a tag proper; not meaningful otherwise.
    pub open spec fn gkind(self) -> TagKind {
        match self {
            GTag::Tag { kind, .. } => kind,
            _ => TagKind::Opening,
        }
    }

    /// The text of a text tag; not meaningful otherwise.
    pub open spec fn gtext(self) -> Seq<char> {
        match self {
            GTag::Text(t) => t,
            _ => Seq::empty(),
        }
    }
}

/// Number of tokens discarded to reach the next resynchronization point: a
/// token classified open-bracket or text (or the end of the input).
pub open spec fn sync_len(ts: Seq<GTok>) -> nat
    decreases ts.len(),
{
    if ts.len() == 0 {
        0
    } else if ts[0].kind == TokenKind::Open || ts[0].kind == TokenKind::Text {
        0
    } else {
        sync_len(ts.drop_first()) + 1
    }
}

pub proof fn lemma_sync_len(ts: Seq<GTok>)
    ensures
        sync_len(ts) <= ts.len(),
    decreases ts.len(),
{
    if ts.len() == 0 {
    } else if ts[0].kind == TokenKind::Open || ts[0].kind == TokenKind::Text {
    } else {
        lemma_sync_len(ts.drop_first());
    }
}

/// Outcome of consuming the attribute section of one tag.
pub enum AttrsOut {
    /// A close bracket was reached; `used` tokens were consumed in all.
    Done { attrs: Seq<(Seq<char>, Seq<char>)>, close: Seq<char>, used: nat },
    /// An unexpected token: its text is the diagnostic, and `skip` tokens
    /// (the section, the offender, and everything up to the next
    /// resynchronization point) are discarded.
    Recover { diag: Seq<char>, skip: nat },
    /// The input ended inside the tag.
    End,
}

/// Add `k` previously consumed tokens to an attribute-section outcome.
pub open spec fn attrs_add(r: AttrsOut, k: nat) -> AttrsOut {
    match r {
        AttrsOut::Done { attrs, close, used } => AttrsOut::Done { attrs, close, used: used + k },
        AttrsOut::Recover { diag, skip } => AttrsOut::Recover { diag, skip: skip + k },
        AttrsOut::End => AttrsOut::End,
    }
}

/// Consume `name`/`=`/`value` triples until a close bracket.  An attribute
/// name with no `=` gets the empty string as its value.
pub open spec fn scan_attrs(ts: Seq<GTok>, acc: Seq<(Seq<char>, Seq<char>)>) -> AttrsOut
    decreases ts.len(),
{
    if ts.len() == 0 {
        AttrsOut::End
    } else if ts[0].kind == TokenKind::Close {
        AttrsOut::Done { attrs: acc, close: ts[0].text, used: 1 }
    } else if ts[0].kind == TokenKind::Name {
        if ts.len() >= 2 && ts[1].kind == TokenKind::Equals {
            if ts.len() == 2 {
                AttrsOut::End
            } else if ts[2].kind == TokenKind::Value {
                attrs_add(scan_attrs(ts.skip(3), aupsert(acc, ts[0].text, ts[2].text)), 3)
            } else {
                proof {
                    lemma_sync_len(ts.skip(3));
                }
                AttrsOut::Recover { diag: ts[2].text, skip: 3 + sync_len(ts.skip(3)) }
            }
        } else {
            attrs_add(scan_attrs(ts.skip(1), aupsert(acc, ts[0].text, Seq::empty())), 1)
        }
    } else {
        AttrsOut::Recover { diag: ts[0].text, skip: sync_len(ts) }
    }
}

pub proof fn lemma_scan_attrs(ts: Seq<GTok>, acc: Seq<(Seq<char>, Seq<char>)>)
    ensures
        scan_attrs(ts, acc) matches AttrsOut::Done { used, .. } ==> 1 <= used <= ts.len(),
        scan_attrs(ts, acc) matches AttrsOut::Recover { skip, .. } ==> skip <= ts.len(),
    decreases ts.len(),
{
    if ts.len() == 0 {
    } else if ts[0].kind == TokenKind::Close {
    } else if ts[0].kind == TokenKind::Name {
        if ts.len() >= 2 && ts[1].kind == TokenKind::Equals {
            if ts.len() == 2 {
            } else if ts[2].kind == TokenKind::Value {
                lemma_scan_attrs(ts.skip(3), aupsert(acc, ts[0].text, ts[2].text));
            } else {
                lemma_sync_len(ts.skip(3));
            }
        } else {
            lemma_scan_attrs(ts.skip(1), aupsert(acc, ts[0].text, Seq::empty()));
        }
    } else {
        lemma_sync_len(ts);
    }
}

/// An attribute name with no `=value` part after it yields the empty string
/// as its value, exactly as `name=""` would.
pub proof fn lemma_bool_attr(ts: Seq<GTok>, acc: Seq<(Seq<char>, Seq<char>)>)
    requires
        ts.len() >= 1,
        ts[0].kind == TokenKind::Name,
        ts.len() >= 2 ==> ts[1].kind != TokenKind::Equals,
    ensures
        scan_attrs(ts, acc) == attrs_add(
            scan_attrs(ts.skip(1), aupsert(acc, ts[0].text, Seq::empty())),
            1,
        ),
{
}

/// One assembler step: the tag produced (or `None` if the token stream ends,
/// possibly mid-tag), the tokens consumed, and the syntax diagnostics
/// recorded by recoveries along the way.
pub struct AsmStep {
    pub tag: Option<GTag>,
    pub used: nat,
    pub diags: Seq<Seq<char>>,
}

/// Assemble one tag from the head of the token stream, recovering from
/// malformed token runs by resynchronizing at the next open-bracket or
/// text token.
pub open spec fn next_tag(ts: Seq<GTok>) -> AsmStep
    decreases ts.len(),
{
    if ts.len() == 0 {
        AsmStep { tag: None, used: 0, diags: Seq::empty() }
    } else if ts[0].kind == TokenKind::Text {
        AsmStep { tag: Some(GTag::Text(ts[0].text)), used: 1, diags: Seq::empty() }
    } else if ts[0].kind != TokenKind::Open {
        let k = sync_len(ts);
        proof {
            lemma_sync_len(ts);
        }
        let rec = next_tag(ts.skip(k as int));
        AsmStep { tag: rec.tag, used: k + rec.used, diags: seq![ts[0].text] + rec.diags }
    } else if ts.len() == 1 {
        AsmStep { tag: None, used: 1, diags: Seq::empty() }
    } else if ts[1].kind != TokenKind::Name {
        let k = 1 + sync_len(ts.skip(1));
        proof {
            lemma_sync_len(ts.skip(1));
        }
        let rec = next_tag(ts.skip(k as int));
        AsmStep { tag: rec.tag, used: k + rec.used, diags: seq![ts[1].text] + rec.diags }
    } else {
        let open = ts[0].text;
        let name = ts[1].text;
        match scan_attrs(ts.skip(2), Seq::empty()) {
            AttrsOut::End => AsmStep { tag: None, used: ts.len(), diags: Seq::empty() },
            AttrsOut::Recover { diag, skip } => {
                proof {
                    lemma_scan_attrs(ts.skip(2), Seq::empty());
                }
                let k = 2 + skip;
                let rec = next_tag(ts.skip(k as int));
                AsmStep { tag: rec.tag, used: k + rec.used, diags: seq![diag] + rec.diags }
            },
            AttrsOut::Done { attrs, close, used } => {
                proof {
                    lemma_scan_attrs(ts.skip(2), Seq::empty());
                }
                let k = 2 + used;
                if (open == seq!['<'] && (close == seq!['>'] || close == seq!['/', '>'])) || (open
                    == seq!['<', '/'] && close == seq!['>']) {
                    let kind = if open == seq!['<', '/'] {
                        TagKind::Closing
                    } else if close == seq!['/', '>'] {
                        TagKind::SelfClosing
                    } else {
                        TagKind::Opening
                    };
                    AsmStep {
                        tag: Some(GTag::Tag { name, attrs, kind }),
                        used: k,
                        diags: Seq::empty(),
                    }
                } else if open == seq!['<', '?'] && close == seq!['?', '>'] {
                    AsmStep {
                        tag: Some(GTag::Declaration { name, attrs }),
                        used: k,
                        diags: Seq::empty(),
                    }
                } else {
                    proof {
                        lemma_sync_len(ts.skip(k as int));
                    }
                    let k2 = k + sync_len(ts.skip(k as int));
                    let rec = next_tag(ts.skip(k2 as int));
                    AsmStep { tag: rec.tag, used: k2 + rec.used, diags: seq![close] + rec.diags }
                }
            },
        }
    }
}

/// A produced tag consumes at least one token: the assembler always makes
/// forward progress.
pub proof fn lemma_next_tag_used(ts: Seq<GTok>)
    ensures
        next_tag(ts).used <= ts.len(),
        next_tag(ts).tag is Some ==> next_tag(ts).used >= 1,
    decreases ts.len(),
{
    if ts.len() == 0 {
    } else if ts[0].kind == TokenKind::Text {
    } else if ts[0].kind != TokenKind::Open {
        lemma_sync_len(ts);
        lemma_next_tag_used(ts.skip(sync_len(ts) as int));
    } else if ts.len() == 1 {
    } else if ts[1].kind != TokenKind::Name {
        lemma_sync_len(ts.skip(1));
        lemma_next_tag_used(ts.skip(1 + sync_len(ts.skip(1)) as int));
    } else {
        lemma_scan_attrs(ts.skip(2), Seq::empty());
        match scan_attrs(ts.skip(2), Seq::empty()) {
            AttrsOut::End => {},
            AttrsOut::Recover { diag, skip } => {
                lemma_next_tag_used(ts.skip(2 + skip as int));
            },
            AttrsOut::Done { attrs, close, used } => {
                let k = 2 + used;
                lemma_sync_len(ts.skip(k as int));
                lemma_next_tag_used(ts.skip((k + sync_len(ts.skip(k as int))) as int));
            },
        }
    }
}

/// The full tag stream of a token stream.
pub open spec fn tags_from(ts: Seq<GTok>) -> Seq<GTag>
    decreases ts.len(),
{
    let st = next_tag(ts);
    match st.tag {
        None => Seq::empty(),
        Some(t) => {
            proof {
                lemma_next_tag_used(ts);
            }
            seq![t] + tags_from(ts.skip(st.used as int))
        },
    }
}

/// The tag stream of a text: what [`Tags::new`] will deliver.
pub open spec fn spec_tags(s: Seq<char>) -> Seq<GTag> {
    tags_from(tokens_from(s, LexState::Content))
}

/// Syntax diagnostics made from recovered token texts.
pub open spec fn syntax_views(ds: Seq<Seq<char>>) -> Seq<ErrorView> {
    ds.map_values(|t: Seq<char>| ErrorView::Syntax { token: t })
}

/// Consuming tokens that produce no tag (a recovery) leaves the tag stream
/// unchanged.
pub proof fn lemma_tags_from_skip(ts: Seq<GTok>, k: nat)
    requires
        k <= ts.len(),
        next_tag(ts).tag == next_tag(ts.skip(k as int)).tag,
        next_tag(ts).used == k + next_tag(ts.skip(k as int)).used,
    ensures
        tags_from(ts) == tags_from(ts.skip(k as int)),
{
    let ts2 = ts.skip(k as int);
    match next_tag(ts2).tag {
        None => {
            assert(tags_from(ts) =~= tags_from(ts2));
        },
        Some(t) => {
            lemma_next_tag_used(ts2);
            assert(ts.skip(next_tag(ts).used as int) =~= ts2.skip(next_tag(ts2).used as int));
            assert(tags_from(ts) =~= tags_from(ts2));
        },
    }
}

/// How one produced tag advances the stream.
pub proof fn lemma_tag_emit(ts: Seq<GTok>)
    requires
        next_tag(ts).tag is Some,
    ensures
        tags_from(ts).len() > 0,
        tags_from(ts)[0] == next_tag(ts).tag.unwrap(),
        tags_from(ts).drop_first() == tags_from(ts.skip(next_tag(ts).used as int)),
{
    lemma_next_tag_used(ts);
    let tail = tags_from(ts.skip(next_tag(ts).used as int));
    let head = seq![next_tag(ts).tag.unwrap()];
    assert(tags_from(ts) == head + tail);
    assert((head + tail).drop_first() =~= tail);
}

pub proof fn lemma_attrs_add_add(r: AttrsOut, a: nat, b: nat)
    ensures
        attrs_add(attrs_add(r, a), b) == attrs_add(r, a + b),
{
}

/// Appending one recorded diagnostic and then the rest is the same as
/// appending them all at once.
proof fn lemma_diag_compose(base: Seq<ErrorView>, d: Seq<char>, rest: Seq<Seq<char>>)
    ensures
        (base + seq![ErrorView::Syntax { token: d }]) + syntax_views(rest) == base + syntax_views(
            seq![d] + rest,
        ),
{
    assert((base + seq![ErrorView::Syntax { token: d }]) + syntax_views(rest) =~= base
        + syntax_views(seq![d] + rest));
}

/// Replacing the value of a name that occurs first at position `i` is an
/// in-place update.
pub(crate) proof fn lemma_aupsert_at(vs: Seq<(Seq<char>, Seq<char>)>, k: Seq<char>, v: Seq<char>, i: int)
    requires
        0 <= i < vs.len(),
        vs[i].0 == k,
        forall|j: int| 0 <= j < i ==> vs[j].0 != k,
    ensures
        aupsert(vs, k, v) == vs.update(i, (k, v)),
    decreases i,
{
    if i == 0 {
        assert(aupsert(vs, k, v) =~= vs.update(0, (k, v)));
    } else {
        assert(vs[0].0 != k);
        lemma_aupsert_at(vs.drop_first(), k, v, i - 1);
        assert(aupsert(vs, k, v) =~= vs.update(i, (k, v)));
    }
}

/// Inserting a name that does not occur is an append.
pub(crate) proof fn lemma_aupsert_missing(vs: Seq<(Seq<char>, Seq<char>)>, k: Seq<char>, v: Seq<char>)
    requires
        forall|j: int| 0 <= j < vs.len() ==> vs[j].0 != k,
    ensures
        aupsert(vs, k, v) == vs.push((k, v)),
    decreases vs.len(),
{
    if vs.len() == 0 {
        assert(aupsert(vs, k, v) =~= vs.push((k, v)));
    } else {
        lemma_aupsert_missing(vs.drop_first(), k, v);
        assert(aupsert(vs, k, v) =~= vs.push((k, v)));
    }
}

/// Last write wins: insert an attribute, replacing in place or appending.
fn attrs_upsert<'a>(attrs: &mut Vec<(&'a str, &'a str)>, key: &'a str, value: &'a str)
    ensures
        attrs_view(final(attrs)@) == aupsert(attrs_view(old(attrs)@), key@, value@),
{
    let ghost vs = attrs_view(attrs@);
    let n = attrs.len();
    let mut i: usize = 0;
    while i < n
        invariant
            i <= n,
            n == attrs.len(),
            attrs == old(attrs),
            vs == attrs_view(attrs@),
            forall|j: int| 0 <= j < i ==> vs[j].0 != key@,
        decreases n - i,
    {
        let (k0, _v0) = attrs[i];
        if str_eq(k0, key) {
            proof {
                assert(vs[i as int].0 == k0@);
            }
            attrs.set(i, (key, value));
            proof {
                lemma_aupsert_at(vs, key@, value@, i as int);
                assert(attrs_view(attrs@) =~= vs.update(i as int, (key@, value@)));
            }
            return ;
        }
        proof {
            assert(vs[i as int].0 == k0@);
        }
        i = i + 1;
    }
    attrs.push((key, value));
    proof {
        lemma_aupsert_missing(vs, key@, value@);
        assert(attrs_view(attrs@) =~= vs.push((key@, value@)));
    }
}

impl TagKind {
    /// Check if tag is opening.
    pub fn is_opening(self) -> (r: bool)
        ensures
            r == (self == TagKind::Opening),
    {
        self == TagKind::Opening
    }

    /// Check if tag is closing.
    pub fn is_closing(self) -> (r: bool)
        ensures
            r == (self == TagKind::Closing),
    {
        self == TagKind::Closing
    }

    /// Check if tag is self-closing.
    pub fn is_self_closing(self) -> (r: bool)
        ensures
            r == (self == TagKind::SelfClosing),
    {
        self == TagKind::SelfClosing
    }
}

impl<'a> Tag<'a> {
    /// Get tag name: `Some` exactly for tags proper.
    pub fn name(&self) -> (r: Option<&'a str>)
        ensures
            match r {
                Some(n) => self@.is_tag() && n@ == self@.gname(),
                None => !self@.is_tag(),
            },
    {
        if let Tag::Tag { name, .. } = self {
            Some(*name)
        } else {
            None
        }
    }

    /// Get an attribute's raw value by name: `Some` exactly when this is a
    /// tag proper carrying that attribute.
    pub fn attr(&self, key: &str) -> (r: Option<&'a str>)
        ensures
            match r {
                Some(v) => self@.is_tag() && alookup(self@.gattrs(), key@) == Some(v@),
                None => !self@.is_tag() || alookup(self@.gattrs(), key@) is None,
            },
    {
        if let Tag::Tag { attrs, .. } = self {
            attrs_find(attrs, key)
        } else {
            None
        }
    }

    /// Get text content: `Some` exactly for text.
    pub fn content(&self) -> (r: Option<&'a str>)
        ensures
            match r {
                Some(t) => self@.is_text() && t@ == self@.gtext(),
                None => !self@.is_text(),
            },
    {
        if let Tag::Text(text) = self {
            Some(*text)
        } else {
            None
        }
    }

    /// Check if tag is opening.
    pub fn is_opening(&self) -> (r: bool)
        ensures
            r == (self@.is_tag() && self@.gkind() == TagKind::Opening),
    {
        if let Tag::Tag { kind, .. } = self {
            kind.is_opening()
        } else {
            false
        }
    }

    /// Check if tag is closing.
    pub fn is_closing(&self) -> (r: bool)
        ensures
            r == (self@.is_tag() && self@.gkind() == TagKind::Closing),
    {
        if let Tag::Tag { kind, .. } = self {
            kind.is_closing()
        } else {
            false
        }
    }

    /// Check if tag is self-closing.
    pub fn is_self_closing(&self) -> (r: bool)
        ensures
            r == (self@.is_tag() && self@.gkind() == TagKind::SelfClosing),
    {
        if let Tag::Tag { kind, .. } = self {
            kind.is_self_closing()
        } else {
            false
        }
    }

    /// Check if tag is text.
    pub fn is_text(&self) -> (r: bool)
        ensures
            r == self@.is_text(),
    {
        if let Tag::Text(..) = self {
            true
        } else {
            false
        }
    }

    /// A copy with the same view: what `peek` hands out while keeping its
    /// buffer.
    fn dup(&self) -> (r: Tag<'a>)
        ensures
            r@ == self@,
    {
        match self {
            Tag::Tag { name, attrs, kind } => {
                let r = Tag::Tag { name: *name, attrs: attrs_dup(attrs), kind: *kind };
                proof {
                    assert(r@.gattrs() =~= self@.gattrs());
                }
                r
            },
            Tag::Text(t) => Tag::Text(*t),
            Tag::Declaration { name, attrs } => {
                let r = Tag::Declaration { name: *name, attrs: attrs_dup(attrs) };
                proof {
                    assert(r@.gattrs() =~= self@.gattrs());
                }
                r
            },
        }
    }
}

/// Linear search through an attribute list.
fn attrs_find<'a>(attrs: &Vec<(&'a str, &'a str)>, key: &str) -> (r: Option<&'a str>)
    ensures
        match r {
            Some(v) => alookup(attrs_view(attrs@), key@) == Some(v@),
            None => alookup(attrs_view(attrs@), key@) is None,
        },
{
    let ghost vs = attrs_view(attrs@);
    proof {
        assert(vs.skip(0) =~= vs);
    }
    let n = attrs.len();
    let mut i: usize = 0;
    while i < n
        invariant
            i <= n,
            n == attrs.len(),
            vs == attrs_view(attrs@),
            alookup(vs, key@) == alookup(vs.skip(i as int), key@),
        decreases n - i,
    {
        let (k0, v0) = attrs[i];
        proof {
            assert(vs.skip(i as int)[0] == vs[i as int]);
            assert(vs[i as int] == (k0@, v0@));
            assert(vs.skip(i as int).drop_first() =~= vs.skip(i as int + 1));
        }
        if str_eq(k0, key) {
            return Some(v0);
        }
        i = i + 1;
    }
    proof {
        assert(vs.skip(n as int).len() == 0);
    }
    None
}

fn attrs_dup<'a>(attrs: &Vec<(&'a str, &'a str)>) -> (r: Vec<(&'a str, &'a str)>)
    ensures
        r@ == attrs@,
{
    let mut r: Vec<(&'a str, &'a str)> = Vec::new();
    let n = attrs.len();
    let mut i: usize = 0;
    while i < n
        invariant
            i <= n,
            n == attrs.len(),
            r@ == attrs@.take(i as int),
        decreases n - i,
    {
        r.push(attrs[i]);
        proof {
            assert(attrs@.take(i as int).push(attrs@[i as int]) =~= attrs@.take(i as int + 1));
        }
        i = i + 1;
    }
    proof {
        assert(attrs@.take(n as int) =~= attrs@);
    }
    r
}

/// Iterator-style source of XML tags, with one tag of lookahead and a list
/// of recovered syntax diagnostics.
#[derive(Debug, Clone)]
pub struct Tags<'a> {
    /// The underlying lexer.
    pub lexer: Lexer<'a>,
    /// Syntax errors recovered from so far, in order of discovery.
    pub diags: Vec<Error>,
    /// One-slot lookahead buffer.
    pub peeked: Option<Tag<'a>>,
}

impl<'a> Tags<'a> {
    pub open spec fn wf(self) -> bool {
        self.lexer.wf()
    }

    /// The stream of tags this assembler will still deliver, lookahead first.
    pub open spec fn gtags(self) -> Seq<GTag> {
        match self.peeked {
            None => tags_from(self.lexer.toks()),
            Some(t) => seq![t@] + tags_from(self.lexer.toks()),
        }
    }

    /// The diagnostics recorded so far, as views.
    pub open spec fn dviews(self) -> Seq<ErrorView> {
        self.diags@.map_values(|e: Error| e@)
    }

    /// The diagnostics that producing the next tag will add.
    pub open spec fn step_diags(self) -> Seq<ErrorView> {
        if self.peeked is Some {
            Seq::empty()
        } else {
            syntax_views(next_tag(self.lexer.toks()).diags)
        }
    }

    /// Create a new iterator over the tags in the provided string.
    ///
    /// Identical to the [`tags`](`crate::tags`) function.
    pub fn new(text: &'a str) -> (r: Tags<'a>)
        ensures
            r.wf(),
            r.peeked is None,
            r.diags@.len() == 0,
            r.lexer.src == text,
            r.lexer.line == 1,
            r.lexer.column == 1,
            r.gtags() == spec_tags(text@),
            r.dviews() == Seq::<ErrorView>::empty(),
    {
        let r = Tags { lexer: Lexer::new(text), diags: Vec::new(), peeked: None };
        proof {
            assert(r.dviews() =~= Seq::<ErrorView>::empty());
        }
        r
    }

    /// Report the current lexer position, for diagnostics.
    pub fn report(&self) -> (r: (usize, usize))
        ensures
            r == (self.lexer.line, self.lexer.column),
    {
        self.lexer.report()
    }

    /// Return the syntax errors recovered from so far.
    pub fn diags(&mut self) -> (r: &[Error])
        ensures
            *final(self) == *old(self),
            r@ == old(self).diags@,
    {
        self.diags.as_slice()
    }

    /// Record a syntax diagnostic for an offending token, then discard tokens
    /// up to the next resynchronization point (an open-bracket or text token,
    /// or the end of the input).
    fn recover(&mut self, token: &str)
        requires
            old(self).wf(),
            old(self).peeked is None,
        ensures
            final(self).wf(),
            final(self).peeked is None,
            final(self).lexer.src == old(self).lexer.src,
            final(self).lexer.toks() == old(self).lexer.toks().skip(
                sync_len(old(self).lexer.toks()) as int,
            ),
            final(self).dviews() == old(self).dviews() + seq![
                ErrorView::Syntax { token: token@ },
            ],
            final(self).diags@.len() == old(self).diags@.len() + 1,
            forall|j: int|
                0 <= j < old(self).diags@.len() ==> final(self).diags@[j] == old(self).diags@[j],
            final(self).diags@.last() matches Error::Syntax { token: t, span } && t@ == token@
                && span == (old(self).lexer.line, old(self).lexer.column),
    {
        let ghost ts0 = self.lexer.toks();
        proof {
            lemma_sync_len(ts0);
        }
        // record the diagnostic
        let span = self.lexer.report();
        let e = Error::Syntax { token: token.to_owned(), span };
        self.diags.push(e);
        proof {
            assert(self.dviews() =~= old(self).dviews() + seq![
                ErrorView::Syntax { token: token@ },
            ]);
        }
        let ghost dv = self.dviews();
        let ghost dafter = self.diags@;
        proof {
            assert(dafter.last() == e);
        }
        // skip to the next sync point
        loop
            invariant
                self.wf(),
                self.peeked is None,
                self.lexer.src == old(self).lexer.src,
                ts0 == old(self).lexer.toks(),
                dv == old(self).dviews() + seq![ErrorView::Syntax { token: token@ }],
                self.dviews() == dv,
                self.diags@ == dafter,
                dafter.len() == old(self).diags@.len() + 1,
                forall|j: int|
                    0 <= j < old(self).diags@.len() ==> dafter[j] == old(self).diags@[j],
                dafter.last() matches Error::Syntax { token: t, span } && t@ == token@ && span
                    == (old(self).lexer.line, old(self).lexer.column),
                sync_len(ts0) == (ts0.len() - self.lexer.toks().len()) + sync_len(
                    self.lexer.toks(),
                ),
                self.lexer.toks() == ts0.skip(ts0.len() - self.lexer.toks().len()),
                self.lexer.toks().len() <= ts0.len(),
            decreases self.lexer.toks().len(),
        {
            let ghost cur = self.lexer.toks();
            match self.lexer.peek() {
                None => {
                    proof {
                        assert(cur.len() == 0);
                        assert(ts0.skip(sync_len(ts0) as int) =~= cur);
                    }
                    return ;
                },
                Some(t) => {
                    match t.kind {
                        TokenKind::Open | TokenKind::Text => {
                            proof {
                                assert(cur[0].kind == TokenKind::Open || cur[0].kind
                                    == TokenKind::Text);
                                assert(sync_len(cur) == 0);
                                assert(ts0.skip(sync_len(ts0) as int) =~= cur);
                            }
                            return ;
                        },
                        _ => {
                            let _ = self.lexer.next();
                            proof {
                                assert(cur.drop_first() =~= ts0.skip(
                                    ts0.len() - cur.drop_first().len(),
                                ));
                            }
                        },
                    }
                },
            }
        }
    }

    /// After an unexpected token: record the diagnostic, skip to the next
    /// resynchronization point, and restart tag assembly there.
    fn resync(&mut self, token: &str, Ghost(ts): Ghost<Seq<GTok>>) -> (r: Option<Tag<'a>>)
        requires
            old(self).wf(),
            old(self).peeked is None,
            old(self).lexer.toks().len() <= ts.len(),
            old(self).lexer.toks() == ts.skip(ts.len() - old(self).lexer.toks().len()),
            ({
                let k = ts.len() - old(self).lexer.toks().len() + sync_len(
                    old(self).lexer.toks(),
                );
                &&& k >= 1
                &&& next_tag(ts).tag == next_tag(ts.skip(k as int)).tag
                &&& next_tag(ts).used == k + next_tag(ts.skip(k as int)).used
                &&& next_tag(ts).diags == seq![token@] + next_tag(ts.skip(k as int)).diags
            }),
        ensures
            final(self).wf(),
            final(self).peeked is None,
            final(self).lexer.src == old(self).lexer.src,
            final(self).dviews() == old(self).dviews() + syntax_views(next_tag(ts).diags),
            match r {
                None => tags_from(ts).len() == 0 && final(self).gtags().len() == 0
                    && final(self).lexer.toks().len() == 0,
                Some(t) => tags_from(ts).len() > 0 && t@ == tags_from(ts)[0]
                    && final(self).gtags() == tags_from(ts).drop_first(),
            },
        decreases ts.len(), 0int,
    {
        let ghost j = ts.len() - old(self).lexer.toks().len();
        let ghost k = j + sync_len(old(self).lexer.toks());
        proof {
            lemma_sync_len(old(self).lexer.toks());
        }
        self.recover(token);
        proof {
            assert(old(self).lexer.toks().skip(sync_len(old(self).lexer.toks()) as int)
                =~= ts.skip(k as int));
            lemma_tags_from_skip(ts, k as nat);
        }
        let r = self.next();
        proof {
            lemma_diag_compose(old(self).dviews(), token@, next_tag(ts.skip(k as int)).diags);
        }
        r
    }

    /// The attribute section ended at a close bracket: consume it, check
    /// that the bracket pair matches, and classify the tag as opening,
    /// closing, self-closing or a declaration.
    #[verifier::rlimit(100)]
    fn close_tag(
        &mut self,
        open: &'a str,
        name: &'a str,
        attrs: Vec<(&'a str, &'a str)>,
        ta: Token<'a>,
        Ghost(ts): Ghost<Seq<GTok>>,
        Ghost(consumed): Ghost<nat>,
    ) -> (r: Option<Tag<'a>>)
        requires
            old(self).wf(),
            old(self).peeked is None,
            ts.len() >= 2,
            ts[0].kind == TokenKind::Open,
            ts[1].kind == TokenKind::Name,
            ts[0].text == open@,
            ts[1].text == name@,
            2 + consumed <= ts.len(),
            old(self).lexer.toks() == ts.skip(2 + consumed as int),
            scan_attrs(ts.skip(2), Seq::empty()) == attrs_add(
                scan_attrs(old(self).lexer.toks(), attrs_view(attrs@)),
                consumed,
            ),
            old(self).lexer.toks().len() > 0,
            old(self).lexer.toks()[0] == ta@,
            ta.kind == TokenKind::Close,
        ensures
            final(self).wf(),
            final(self).peeked is None,
            final(self).lexer.src == old(self).lexer.src,
            final(self).dviews() == old(self).dviews() + syntax_views(next_tag(ts).diags),
            match r {
                None => tags_from(ts).len() == 0 && final(self).gtags().len() == 0
                    && final(self).lexer.toks().len() == 0,
                Some(t) => tags_from(ts).len() > 0 && t@ == tags_from(ts)[0]
                    && final(self).gtags() == tags_from(ts).drop_first(),
            },
        decreases ts.len(), 1int,
    {
        let ghost cur = old(self).lexer.toks();
        let _ = self.lexer.next();
        let close = ta.text;
        proof {
            assert(scan_attrs(cur, attrs_view(attrs@)) == (AttrsOut::Done {
                attrs: attrs_view(attrs@),
                close: cur[0].text,
                used: 1,
            }));
            assert(scan_attrs(ts.skip(2), Seq::empty()) == (AttrsOut::Done {
                attrs: attrs_view(attrs@),
                close: close@,
                used: 1 + consumed,
            }));
            assert(self.lexer.toks() =~= ts.skip(3 + consumed as int));
        }
        let is_closing = str_eq(open, "</");
        let is_self = str_eq(close, "/>");
        let is_lt = str_eq(open, "<");
        let is_gt = str_eq(close, ">");
        let is_ltq = str_eq(open, "<?");
        let is_qgt = str_eq(close, "?>");
        proof {
            reveal_strlit("<");
            reveal_strlit("</");
            reveal_strlit("<?");
            reveal_strlit(">");
            reveal_strlit("/>");
            reveal_strlit("?>");
            assert("<"@ =~= seq!['<']);
            assert("</"@ =~= seq!['<', '/']);
            assert("<?"@ =~= seq!['<', '?']);
            assert(">"@ =~= seq!['>']);
            assert("/>"@ =~= seq!['/', '>']);
            assert("?>"@ =~= seq!['?', '>']);
        }
        let ghost k = 3 + consumed;
        if (is_lt && (is_gt || is_self)) || (is_closing && is_gt) {
            let kind = if is_closing {
                TagKind::Closing
            } else if is_self {
                TagKind::SelfClosing
            } else {
                TagKind::Opening
            };
            let r = Tag::Tag { name, attrs, kind };
            proof {
                assert(next_tag(ts).tag == Some(r@));
                assert(next_tag(ts).used == k);
                lemma_tag_emit(ts);
                assert(old(self).dviews() + syntax_views(next_tag(ts).diags) =~= old(
                    self,
                ).dviews());
            }
            return Some(r);
        } else if is_ltq && is_qgt {
            let r = Tag::Declaration { name, attrs };
            proof {
                assert(next_tag(ts).tag == Some(r@));
                assert(next_tag(ts).used == k);
                lemma_tag_emit(ts);
                assert(old(self).dviews() + syntax_views(next_tag(ts).diags) =~= old(
                    self,
                ).dviews());
            }
            return Some(r);
        } else {
            // mismatched bracket pair, e.g. `<` opened but `?>` closed
            proof {
                assert(self.lexer.toks() == ts.skip(k as int));
                assert(next_tag(ts).tag == next_tag(
                    ts.skip((k + sync_len(ts.skip(k as int))) as int),
                ).tag);
            }
            return self.resync(close, Ghost(ts));
        }
    }

    /// Peek at the next tag without removing it from the stream.  Any
    /// recoveries needed to assemble it are performed (and recorded) now.
    pub fn peek(&mut self) -> (r: Option<Tag<'a>>)
        requires
            old(self).wf(),
        ensures
            final(self).wf(),
            final(self).lexer.src == old(self).lexer.src,
            final(self).gtags() == old(self).gtags(),
            final(self).dviews() == old(self).dviews() + old(self).step_diags(),
            final(self).step_diags() == Seq::<ErrorView>::empty(),
            match r {
                None => old(self).gtags().len() == 0,
                Some(t) => old(self).gtags().len() > 0 && t@ == old(self).gtags()[0],
            },
    {
        if self.peeked.is_none() {
            let t = self.next();
            self.peeked = t;
            proof {
                match &self.peeked {
                    Some(t) => {
                        assert(old(self).gtags() =~= seq![t@] + old(self).gtags().drop_first());
                    },
                    None => {
                        assert(self.gtags() =~= old(self).gtags());
                        assert(syntax_views(next_tag(self.lexer.toks()).diags) =~= Seq::<
                            ErrorView,
                        >::empty());
                    },
                }
            }
        } else {
            proof {
                assert(old(self).dviews() + Seq::<ErrorView>::empty() =~= old(self).dviews());
            }
        }
        match &self.peeked {
            Some(t) => Some(t.dup()),
            None => None,
        }
    }

    /// Deliver the next tag, or `None` once the token stream is exhausted.
    /// The head of [`Tags::gtags`] is returned and removed from the stream;
    /// the diagnostics of any recoveries performed along the way are
    /// appended to [`Tags::dviews`].
    #[verifier::rlimit(100)]
    pub fn next(&mut self) -> (r: Option<Tag<'a>>)
        requires
            old(self).wf(),
        ensures
            final(self).wf(),
            final(self).lexer.src == old(self).lexer.src,
            final(self).peeked is None,
            final(self).dviews() == old(self).dviews() + old(self).step_diags(),
            match r {
                None => old(self).gtags().len() == 0 && final(self).gtags().len() == 0
                    && final(self).lexer.toks().len() == 0,
                Some(t) => old(self).gtags().len() > 0 && t@ == old(self).gtags()[0]
                    && final(self).gtags() == old(self).gtags().drop_first(),
            },
        decreases old(self).lexer.toks().len(), 2int,
    {
        // a buffered tag is returned first
        let p = self.peeked.take();
        match p {
            Some(t) => {
                proof {
                    assert((seq![t@] + tags_from(self.lexer.toks())).drop_first() =~= tags_from(
                        self.lexer.toks(),
                    ));
                    assert(old(self).dviews() + Seq::<ErrorView>::empty() =~= old(self).dviews());
                }
                return Some(t);
            },
            None => {},
        }
        let ghost ts = self.lexer.toks();
        proof {
            assert(old(self).gtags() == tags_from(ts));
        }

        // the first token decides: end, text, or an opening bracket
        let t0 = match self.lexer.peek() {
            None => {
                proof {
                    assert(ts.len() == 0);
                    assert(old(self).dviews() + old(self).step_diags() =~= old(self).dviews());
                }
                return None;
            },
            Some(t0) => t0,
        };

        // text never carries attributes: emit it directly
        if t0.kind == TokenKind::Text {
            let _ = self.lexer.next();
            proof {
                assert(ts[0] == t0@);
                lemma_tag_emit(ts);
                assert(self.lexer.toks() =~= ts.skip(1));
                assert(old(self).dviews() + old(self).step_diags() =~= old(self).dviews());
            }
            return Some(Tag::Text(t0.text));
        }

        // expect an open bracket
        if t0.kind != TokenKind::Open {
            proof {
                assert(ts[0] == t0@);
                assert(ts.skip(0) =~= ts);
            }
            return self.resync(t0.text, Ghost(ts));
        }
        let open = t0.text;
        let _ = self.lexer.next();
        proof {
            assert(self.lexer.toks() =~= ts.skip(1));
        }

        // expect the tag name
        let t1 = match self.lexer.peek() {
            None => {
                proof {
                    assert(ts.len() == 1);
                    assert(old(self).dviews() + old(self).step_diags() =~= old(self).dviews());
                }
                return None;
            },
            Some(t1) => t1,
        };
        if t1.kind != TokenKind::Name {
            proof {
                assert(ts.skip(1)[0] == t1@);
                assert(ts[1] == t1@);
            }
            return self.resync(t1.text, Ghost(ts));
        }
        let name = t1.text;
        let _ = self.lexer.next();

        // the attribute section
        let ghost ats = ts.skip(2);
        proof {
            assert(ts.skip(1).drop_first() =~= ats);
            assert(ats.skip(0) =~= ats);
        }
        let mut attrs: Vec<(&'a str, &'a str)> = Vec::new();
        let ghost mut consumed: nat = 0;
        proof {
            assert(attrs_view(attrs@) =~= Seq::<(Seq<char>, Seq<char>)>::empty());
        }
        loop
            invariant
                self.wf(),
                self.peeked is None,
                self.lexer.src == old(self).lexer.src,
                old(self).peeked is None,
                old(self).wf(),
                ts == old(self).lexer.toks(),
                self.dviews() == old(self).dviews(),
                ts.len() >= 2,
                ts[0].kind == TokenKind::Open,
                ts[1].kind == TokenKind::Name,
                ts[0].text == open@,
                ts[1].text == name@,
                ats == ts.skip(2),
                consumed <= ats.len(),
                self.lexer.toks() == ats.skip(consumed as int),
                scan_attrs(ats, Seq::empty()) == attrs_add(
                    scan_attrs(ats.skip(consumed as int), attrs_view(attrs@)),
                    consumed,
                ),
            decreases self.lexer.toks().len(),
        {
            let ghost cur = self.lexer.toks();
            let ta = match self.lexer.peek() {
                None => {
                    // the input ended inside the tag: the stream is over
                    proof {
                        assert(cur.len() == 0);
                        assert(scan_attrs(ats, Seq::empty()) == AttrsOut::End);
                        assert(old(self).dviews() + old(self).step_diags() =~= old(
                            self,
                        ).dviews());
                    }
                    return None;
                },
                Some(ta) => ta,
            };
            proof {
                assert(cur[0] == ta@);
            }
            match ta.kind {
                TokenKind::Close => {
                    proof {
                        assert(cur =~= ts.skip(2 + consumed as int));
                    }
                    return self.close_tag(open, name, attrs, ta, Ghost(ts), Ghost(consumed));
                },
                TokenKind::Name => {
                    let _ = self.lexer.next();
                    // an attribute with no `=` gets the empty string
                    let has_eq = match self.lexer.peek() {
                        Some(te) => te.kind == TokenKind::Equals,
                        None => false,
                    };
                    if has_eq {
                        proof {
                            assert(cur.drop_first()[0] == cur[1]);
                        }
                        let _ = self.lexer.next();
                        match self.lexer.next() {
                            None => {
                                // `name =` and then the end of the input
                                proof {
                                    assert(cur.len() == 2);
                                    assert(scan_attrs(cur, attrs_view(attrs@)) == AttrsOut::End);
                                    assert(scan_attrs(ats, Seq::empty()) == AttrsOut::End);
                                    assert(old(self).dviews() + old(self).step_diags() =~= old(
                                        self,
                                    ).dviews());
                                }
                                return None;
                            },
                            Some(tv) => {
                                proof {
                                    assert(cur.drop_first().drop_first()[0] == cur[2]);
                                    assert(cur[2] == tv@);
                                }
                                if tv.kind == TokenKind::Value {
                                    let ghost acc0 = attrs_view(attrs@);
                                    attrs_upsert(&mut attrs, ta.text, tv.text);
                                    proof {
                                        assert(scan_attrs(cur, acc0) == attrs_add(
                                            scan_attrs(cur.skip(3), aupsert(acc0, cur[0].text, cur[2].text)),
                                            3,
                                        ));
                                        lemma_attrs_add_add(
                                            scan_attrs(cur.skip(3), attrs_view(attrs@)),
                                            3,
                                            consumed,
                                        );
                                        consumed = consumed + 3;
                                        assert(cur.skip(3) =~= ats.skip(consumed as int));
                                        assert(self.lexer.toks() =~= ats.skip(consumed as int));
                                        lemma_scan_attrs(ats, Seq::empty());
                                    }
                                } else {
                                    // not a value where one was owed
                                    let ghost sk = 3 + sync_len(cur.skip(3));
                                    proof {
                                        assert(scan_attrs(cur, attrs_view(attrs@))
                                            == (AttrsOut::Recover {
                                            diag: cur[2].text,
                                            skip: sk,
                                        }));
                                        assert(scan_attrs(ats, Seq::empty())
                                            == (AttrsOut::Recover {
                                            diag: cur[2].text,
                                            skip: sk + consumed,
                                        }));
                                        assert(self.lexer.toks() =~= cur.skip(3));
                                        assert(self.lexer.toks() =~= ts.skip(
                                            2 + consumed as int + 3,
                                        ));
                                    }
                                    return self.resync(tv.text, Ghost(ts));
                                }
                            },
                        }
                    } else {
                        let ghost acc0 = attrs_view(attrs@);
                        attrs_upsert(&mut attrs, ta.text, "");
                        proof {
                            reveal_strlit("");
                            assert(""@ =~= Seq::<char>::empty());
                            assert(scan_attrs(cur, acc0) == attrs_add(
                                scan_attrs(cur.skip(1), aupsert(acc0, cur[0].text, ""@)),
                                1,
                            ));
                            lemma_attrs_add_add(
                                scan_attrs(cur.skip(1), attrs_view(attrs@)),
                                1,
                                consumed,
                            );
                            consumed = consumed + 1;
                            assert(cur.skip(1) =~= ats.skip(consumed as int));
                            assert(self.lexer.toks() =~= ats.skip(consumed as int));
                            lemma_scan_attrs(ats, Seq::empty());
                        }
                    }
                },
                _ => {
                    // unexpected token inside the attribute section
                    let ghost sk = sync_len(cur);
                    proof {
                        assert(scan_attrs(cur, attrs_view(attrs@)) == (AttrsOut::Recover {
                            diag: cur[0].text,
                            skip: sk,
                        }));
                        assert(scan_attrs(ats, Seq::empty()) == (AttrsOut::Recover {
                            diag: cur[0].text,
                            skip: sk + consumed,
                        }));
                        assert(cur =~= ts.skip(2 + consumed as int));
                    }
                    return self.resync(ta.text, Ghost(ts));
                },
            }
        }
    }
}

} // verus!
