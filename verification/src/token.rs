//! Tokenizer/lexer: scans raw text into a flat sequence of classified tokens.
//!
//! The lexer is a two-state machine.  In `Content` state any character run not
//! starting with `<` is one text token; `<`, `</` and `<?` open a tag.  In
//! `Tag` state whitespace is skipped, identifiers, `=`, quoted values and the
//! closing brackets `>`, `/>`, `?>` are tokenized.  `<!-- ... -->` comments
//! are discarded wherever they appear, never surfacing as tokens.
//!
//! The spec functions [`next_token`] and [`tokens_from`] are the mathematical
//! model: [`Lexer::next`] is proved to deliver exactly the stream
//! [`Lexer::toks`] that they describe.

use vstd::prelude::*;

verus! {

/// Classification of a single lexical token.
#[derive(Clone, Copy, Debug, PartialEq, Eq, Structural)]
pub enum TokenKind {
    /// `<`, `</` or `<?`.
    Open,
    /// `>`, `/>` or `?>`.
    Close,
    /// An identifier made of `[A-Za-z0-9_:-]` characters.
    Name,
    /// `=` between an attribute name and its value.
    Equals,
    /// A quoted attribute value, quotes stripped.
    Value,
    /// Literal character data between tags.
    Text,
    /// A character that fits no token class in tag state; the tag assembler
    /// recovers from it.
    Stray,
}

/// The two lexer states: between tags, or inside `<...>`.
#[derive(Clone, Copy, Debug, PartialEq, Eq, Structural)]
pub enum LexState {
    Content,
    Tag,
}

/// One lexed token: a slice of the original input and its classification.
#[derive(Clone, Copy, Debug)]
pub struct Token<'a> {
    pub text: &'a str,
    pub kind: TokenKind,
}

/// Spec-level token: what a token carries, plus how many input characters
/// producing it consumed and the lexer state after it.
pub struct SpecTok {
    pub text: Seq<char>,
    pub kind: TokenKind,
    pub used: nat,
    pub state: LexState,
}

/// Spec-level view of an emitted token (the part visible to consumers).
pub struct GTok {
    pub text: Seq<char>,
    pub kind: TokenKind,
}

/// Whitespace skipped inside tags: exactly the four XML whitespace
/// characters (space, tab, carriage return, line feed).  This is a
/// deliberate choice: any other Unicode whitespace inside a tag is not
/// skipped but lexed as a stray character, from which the tag assembler
/// recovers.
pub open spec fn is_space_char(c: char) -> bool {
    c == ' ' || c == '\n' || c == '\t' || c == '\r'
}

/// The diagnostic position after consuming `text`, starting from `p ==
/// (line, column)`: a newline advances the line and resets the column to 1,
/// any other character advances the column; both counters are 1-indexed and
/// saturate rather than overflow.
pub open spec fn pos_advance(p: (usize, usize), text: Seq<char>) -> (usize, usize)
    decreases text.len(),
{
    if text.len() == 0 {
        p
    } else {
        let line = if text[0] == '\n' && p.0 < usize::MAX {
            (p.0 + 1) as usize
        } else {
            p.0
        };
        let column = if text[0] == '\n' {
            1usize
        } else if p.1 < usize::MAX {
            (p.1 + 1) as usize
        } else {
            p.1
        };
        pos_advance((line, column), text.drop_first())
    }
}

/// Consuming two spans one after the other advances the position as
/// consuming their concatenation does.
pub proof fn lemma_pos_advance_concat(p: (usize, usize), a: Seq<char>, b: Seq<char>)
    ensures
        pos_advance(p, a + b) == pos_advance(pos_advance(p, a), b),
    decreases a.len(),
{
    if a.len() == 0 {
        assert(a + b =~= b);
    } else {
        assert((a + b)[0] == a[0]);
        assert((a + b).drop_first() =~= a.drop_first() + b);
        let line = if a[0] == '\n' && p.0 < usize::MAX {
            (p.0 + 1) as usize
        } else {
            p.0
        };
        let column = if a[0] == '\n' {
            1usize
        } else if p.1 < usize::MAX {
            (p.1 + 1) as usize
        } else {
            p.1
        };
        lemma_pos_advance_concat((line, column), a.drop_first(), b);
    }
}

/// Characters allowed in names: `[A-Za-z0-9_:-]`.
pub open spec fn is_name_char(c: char) -> bool {
    let u = c as u32;
    (97 <= u && u <= 122) || (65 <= u && u <= 90) || (48 <= u && u <= 57) || u == 95 || u == 58
        || u == 45
}

/// Length of the leading run of non-`<` characters (one text token).
pub open spec fn text_run(s: Seq<char>) -> nat
    decreases s.len(),
{
    if s.len() == 0 || s[0] == '<' {
        0
    } else {
        text_run(s.drop_first()) + 1
    }
}

/// Length of the leading run of name characters.
pub open spec fn name_run(s: Seq<char>) -> nat
    decreases s.len(),
{
    if s.len() == 0 || !is_name_char(s[0]) {
        0
    } else {
        name_run(s.drop_first()) + 1
    }
}

/// Length of the leading run of characters other than the delimiter `q`.
pub open spec fn quote_run(s: Seq<char>, q: char) -> nat
    decreases s.len(),
{
    if s.len() == 0 || s[0] == q {
        0
    } else {
        quote_run(s.drop_first(), q) + 1
    }
}

/// Does `s` begin a comment, `<!--`?
pub open spec fn is_comment_start(s: Seq<char>) -> bool {
    s.len() >= 4 && s[0] == '<' && s[1] == '!' && s[2] == '-' && s[3] == '-'
}

/// Characters consumed by a comment: up to and including the first `-->`, or
/// all of `s` if the comment is unterminated (documented leniency).  The
/// search starts at the head of `s`, so the terminator may overlap the
/// opener, as in `<!-->`.
pub open spec fn comment_len(s: Seq<char>) -> nat
    decreases s.len(),
{
    if s.len() >= 3 && s[0] == '-' && s[1] == '-' && s[2] == '>' {
        3
    } else if s.len() == 0 {
        0
    } else {
        comment_len(s.drop_first()) + 1
    }
}

/// Add `k` to the consumed-count of a token, leaving the rest unchanged: used
/// when whitespace or a comment precedes the token.
pub open spec fn bump(t: Option<SpecTok>, k: nat) -> Option<SpecTok> {
    match t {
        None => None,
        Some(t) => Some(SpecTok { used: t.used + k, ..t }),
    }
}

pub proof fn lemma_text_run(s: Seq<char>)
    ensures
        text_run(s) <= s.len(),
        forall|i: int| 0 <= i < text_run(s) ==> s[i] != '<',
        text_run(s) < s.len() ==> s[text_run(s) as int] == '<',
    decreases s.len(),
{
    if s.len() == 0 || s[0] == '<' {
    } else {
        lemma_text_run(s.drop_first());
        assert forall|i: int| 0 <= i < text_run(s) implies s[i] != '<' by {
            if i > 0 {
                assert(s.drop_first()[i - 1] != '<');
            }
        }
    }
}

pub proof fn lemma_name_run(s: Seq<char>)
    ensures
        name_run(s) <= s.len(),
        forall|i: int| 0 <= i < name_run(s) ==> is_name_char(s[i]),
        name_run(s) < s.len() ==> !is_name_char(s[name_run(s) as int]),
    decreases s.len(),
{
    if s.len() == 0 || !is_name_char(s[0]) {
    } else {
        lemma_name_run(s.drop_first());
        assert forall|i: int| 0 <= i < name_run(s) implies is_name_char(s[i]) by {
            if i > 0 {
                assert(is_name_char(s.drop_first()[i - 1]));
            }
        }
    }
}

pub proof fn lemma_quote_run(s: Seq<char>, q: char)
    ensures
        quote_run(s, q) <= s.len(),
        forall|i: int| 0 <= i < quote_run(s, q) ==> s[i] != q,
        quote_run(s, q) < s.len() ==> s[quote_run(s, q) as int] == q,
    decreases s.len(),
{
    if s.len() == 0 || s[0] == q {
    } else {
        lemma_quote_run(s.drop_first(), q);
        assert forall|i: int| 0 <= i < quote_run(s, q) implies s[i] != q by {
            if i > 0 {
                assert(s.drop_first()[i - 1] != q);
            }
        }
    }
}

pub proof fn lemma_comment_len(s: Seq<char>)
    ensures
        comment_len(s) <= s.len(),
        s.len() > 0 ==> comment_len(s) >= 1,
        s.len() < 3 ==> comment_len(s) == s.len(),
    decreases s.len(),
{
    if s.len() >= 3 && s[0] == '-' && s[1] == '-' && s[2] == '>' {
    } else if s.len() == 0 {
    } else {
        lemma_comment_len(s.drop_first());
    }
}

/// The next token of `s` in state `st`: its text, kind, characters consumed
/// (including any skipped whitespace or comments), and the state after it.
/// `None` means the input is exhausted, possibly after trailing whitespace or
/// a trailing comment.
pub open spec fn next_token(s: Seq<char>, st: LexState) -> Option<SpecTok>
    decreases s.len(),
{
    if s.len() == 0 {
        None
    } else if st == LexState::Tag && is_space_char(s[0]) {
        bump(next_token(s.drop_first(), st), 1)
    } else if is_comment_start(s) {
        proof {
            lemma_comment_len(s);
        }
        bump(next_token(s.skip(comment_len(s) as int), st), comment_len(s))
    } else if s[0] == '<' {
        if s.len() >= 2 && (s[1] == '?' || s[1] == '/') {
            Some(
                SpecTok {
                    text: s.subrange(0, 2),
                    kind: TokenKind::Open,
                    used: 2,
                    state: LexState::Tag,
                },
            )
        } else {
            Some(
                SpecTok {
                    text: s.subrange(0, 1),
                    kind: TokenKind::Open,
                    used: 1,
                    state: LexState::Tag,
                },
            )
        }
    } else if st == LexState::Content {
        Some(
            SpecTok {
                text: s.subrange(0, text_run(s) as int),
                kind: TokenKind::Text,
                used: text_run(s),
                state: LexState::Content,
            },
        )
    } else if s[0] == '>' {
        Some(
            SpecTok {
                text: s.subrange(0, 1),
                kind: TokenKind::Close,
                used: 1,
                state: LexState::Content,
            },
        )
    } else if (s[0] == '?' || s[0] == '/') && s.len() >= 2 && s[1] == '>' {
        Some(
            SpecTok {
                text: s.subrange(0, 2),
                kind: TokenKind::Close,
                used: 2,
                state: LexState::Content,
            },
        )
    } else if s[0] == '=' {
        Some(
            SpecTok {
                text: s.subrange(0, 1),
                kind: TokenKind::Equals,
                used: 1,
                state: LexState::Tag,
            },
        )
    } else if s[0] == '"' || s[0] == '\'' {
        let n = quote_run(s.drop_first(), s[0]);
        if n < s.len() - 1 {
            // Terminated value: the token is the span between the quotes.
            Some(
                SpecTok {
                    text: s.subrange(1, n as int + 1),
                    kind: TokenKind::Value,
                    used: n + 2,
                    state: LexState::Tag,
                },
            )
        } else {
            // Unterminated value: consume to end of input.
            Some(
                SpecTok {
                    text: s.drop_first(),
                    kind: TokenKind::Value,
                    used: s.len(),
                    state: LexState::Tag,
                },
            )
        }
    } else if is_name_char(s[0]) {
        Some(
            SpecTok {
                text: s.subrange(0, name_run(s) as int),
                kind: TokenKind::Name,
                used: name_run(s),
                state: LexState::Tag,
            },
        )
    } else {
        Some(
            SpecTok {
                text: s.subrange(0, 1),
                kind: TokenKind::Stray,
                used: 1,
                state: LexState::Tag,
            },
        )
    }
}

/// Every produced token consumes at least one and at most all remaining
/// characters: the lexer always makes forward progress.
pub proof fn lemma_next_token_used(s: Seq<char>, st: LexState)
    ensures
        next_token(s, st) matches Some(t) ==> 1 <= t.used && t.used <= s.len(),
    decreases s.len(),
{
    if s.len() == 0 {
    } else if st == LexState::Tag && is_space_char(s[0]) {
        lemma_next_token_used(s.drop_first(), st);
    } else if is_comment_start(s) {
        lemma_comment_len(s);
        lemma_next_token_used(s.skip(comment_len(s) as int), st);
    } else if s[0] == '<' {
    } else if st == LexState::Content {
        lemma_text_run(s);
        assert(text_run(s) >= 1) by {
            assert(s[0] != '<');
        }
    } else if s[0] == '>' {
    } else if (s[0] == '?' || s[0] == '/') && s.len() >= 2 && s[1] == '>' {
    } else if s[0] == '=' {
    } else if s[0] == '"' || s[0] == '\'' {
        lemma_quote_run(s.drop_first(), s[0]);
    } else if is_name_char(s[0]) {
        lemma_name_run(s);
    } else {
    }
}

/// A run of name characters followed by anything else is scanned as one
/// name token of exactly the run's length.
pub proof fn lemma_name_run_concat(a: Seq<char>, b: Seq<char>)
    requires
        forall|i: int| 0 <= i < a.len() ==> is_name_char(a[i]),
        b.len() > 0 ==> !is_name_char(b[0]),
    ensures
        name_run(a + b) == a.len(),
    decreases a.len(),
{
    if a.len() == 0 {
        assert(a + b =~= b);
    } else {
        assert((a + b)[0] == a[0]);
        assert((a + b).drop_first() =~= a.drop_first() + b);
        assert forall|i: int| 0 <= i < a.drop_first().len() implies is_name_char(
            a.drop_first()[i],
        ) by {
            assert(a.drop_first()[i] == a[i + 1]);
        }
        lemma_name_run_concat(a.drop_first(), b);
    }
}

/// A run of non-`<` characters up to a `<` (or the end) is one text token.
pub proof fn lemma_text_run_concat(a: Seq<char>, b: Seq<char>)
    requires
        forall|i: int| 0 <= i < a.len() ==> a[i] != '<',
        b.len() > 0 ==> b[0] == '<',
    ensures
        text_run(a + b) == a.len(),
    decreases a.len(),
{
    if a.len() == 0 {
        assert(a + b =~= b);
    } else {
        assert((a + b)[0] == a[0]);
        assert((a + b).drop_first() =~= a.drop_first() + b);
        assert forall|i: int| 0 <= i < a.drop_first().len() implies a.drop_first()[i] != '<' by {
            assert(a.drop_first()[i] == a[i + 1]);
        }
        lemma_text_run_concat(a.drop_first(), b);
    }
}

/// A run without the delimiter, followed by the delimiter, is scanned up to
/// exactly the delimiter.
pub proof fn lemma_quote_run_concat(a: Seq<char>, b: Seq<char>, q: char)
    requires
        forall|i: int| 0 <= i < a.len() ==> a[i] != q,
        b.len() > 0,
        b[0] == q,
    ensures
        quote_run(a + b, q) == a.len(),
    decreases a.len(),
{
    if a.len() == 0 {
        assert(a + b =~= b);
    } else {
        assert((a + b)[0] == a[0]);
        assert((a + b).drop_first() =~= a.drop_first() + b);
        assert forall|i: int| 0 <= i < a.drop_first().len() implies a.drop_first()[i] != q by {
            assert(a.drop_first()[i] == a[i + 1]);
        }
        lemma_quote_run_concat(a.drop_first(), b, q);
    }
}

/// A comment contributes zero tokens, wherever it appears: whenever the
/// lexer stands at a `<!--`, in either state, the token stream is exactly
/// the token stream of what follows the comment's end.  (Since tags and
/// trees are functions of the token stream alone, a comment contributes
/// zero nodes as well.)
pub proof fn lemma_comment_invisible(s: Seq<char>, st: LexState)
    requires
        is_comment_start(s),
    ensures
        tokens_from(s, st) == tokens_from(s.skip(comment_len(s) as int), st),
{
    lemma_comment_len(s);
    assert(next_token(s, st) == bump(
        next_token(s.skip(comment_len(s) as int), st),
        comment_len(s),
    ));
    lemma_tokens_from_skip(s, st, comment_len(s));
}

/// The full token stream of `s` starting in state `st`.
pub open spec fn tokens_from(s: Seq<char>, st: LexState) -> Seq<GTok>
    decreases s.len(),
{
    match next_token(s, st) {
        None => Seq::empty(),
        Some(t) => {
            proof {
                lemma_next_token_used(s, st);
            }
            seq![GTok { text: t.text, kind: t.kind }] + tokens_from(s.skip(t.used as int), t.state)
        },
    }
}

impl<'a> View for Token<'a> {
    type V = GTok;

    open spec fn view(&self) -> GTok {
        GTok { text: self.text@, kind: self.kind }
    }
}

/// Skipping `k` characters that produce no token (whitespace, a comment)
/// leaves the token stream unchanged.
pub proof fn lemma_tokens_from_skip(s: Seq<char>, st: LexState, k: nat)
    requires
        k <= s.len(),
        next_token(s, st) == bump(next_token(s.skip(k as int), st), k),
    ensures
        tokens_from(s, st) == tokens_from(s.skip(k as int), st),
{
    let s2 = s.skip(k as int);
    match next_token(s2, st) {
        None => {
            assert(tokens_from(s, st) =~= tokens_from(s2, st));
        },
        Some(t2) => {
            let t = next_token(s, st).unwrap();
            lemma_next_token_used(s2, st);
            assert(s.skip(t.used as int) =~= s2.skip(t2.used as int));
            assert(tokens_from(s, st) =~= tokens_from(s2, st));
        },
    }
}

/// How one produced token advances the stream: the head is the token, the
/// tail is the stream of what follows it.
pub proof fn lemma_emit(s: Seq<char>, pos: int, st: LexState, tk: SpecTok)
    requires
        0 <= pos <= s.len(),
        next_token(s.skip(pos), st) == Some(tk),
    ensures
        tokens_from(s.skip(pos), st).len() > 0,
        tokens_from(s.skip(pos), st)[0] == (GTok { text: tk.text, kind: tk.kind }),
        tokens_from(s.skip(pos), st).drop_first() == tokens_from(
            s.skip(pos + tk.used),
            tk.state,
        ),
{
    lemma_next_token_used(s.skip(pos), st);
    assert(s.skip(pos).skip(tk.used as int) =~= s.skip(pos + tk.used));
    let head = seq![GTok { text: tk.text, kind: tk.kind }];
    assert(tokens_from(s.skip(pos), st) == head + tokens_from(s.skip(pos + tk.used), tk.state));
    assert((head + tokens_from(s.skip(pos + tk.used), tk.state)).drop_first() =~= tokens_from(
        s.skip(pos + tk.used),
        tk.state,
    ));
}

/// Character-for-character string equality, decided against the views.
pub(crate) fn str_eq(a: &str, b: &str) -> (r: bool)
    ensures
        r == (a@ == b@),
{
    let la = a.unicode_len();
    let lb = b.unicode_len();
    if la != lb {
        return false;
    }
    let mut i: usize = 0;
    while i < la
        invariant
            i <= la,
            la == a@.len(),
            la == b@.len(),
            forall|j: int| 0 <= j < i ==> a@[j] == b@[j],
        decreases la - i,
    {
        if a.get_char(i) != b.get_char(i) {
            return false;
        }
        i = i + 1;
    }
    proof {
        assert(a@ =~= b@);
    }
    true
}

fn space_char(c: char) -> (r: bool)
    ensures
        r == is_space_char(c),
{
    c == ' ' || c == '\n' || c == '\t' || c == '\r'
}

fn name_char(c: char) -> (r: bool)
    ensures
        r == is_name_char(c),
{
    let u = c as u32;
    (97 <= u && u <= 122) || (65 <= u && u <= 90) || (48 <= u && u <= 57) || u == 95 || u == 58
        || u == 45
}

/// First index at or after `from` holding `<`, or the end of `s`.
fn scan_text(s: &str, from: usize) -> (e: usize)
    requires
        from <= s@.len(),
    ensures
        e - from == text_run(s@.skip(from as int)),
        from <= e <= s@.len(),
{
    let len = s.unicode_len();
    let mut i = from;
    while i < len && s.get_char(i) != '<'
        invariant
            from <= i <= len,
            len == s@.len(),
            text_run(s@.skip(from as int)) == i - from + text_run(s@.skip(i as int)),
        decreases len - i,
    {
        proof {
            let r = s@.skip(i as int);
            assert(r[0] == s@[i as int]);
            assert(r.drop_first() =~= s@.skip(i as int + 1));
        }
        i = i + 1;
    }
    proof {
        let r = s@.skip(i as int);
        if i < len {
            assert(r[0] == s@[i as int]);
        }
    }
    i
}

/// First index at or after `from` whose character is not a name character.
fn scan_name(s: &str, from: usize) -> (e: usize)
    requires
        from <= s@.len(),
    ensures
        e - from == name_run(s@.skip(from as int)),
        from <= e <= s@.len(),
{
    let len = s.unicode_len();
    let mut i = from;
    while i < len && name_char(s.get_char(i))
        invariant
            from <= i <= len,
            len == s@.len(),
            name_run(s@.skip(from as int)) == i - from + name_run(s@.skip(i as int)),
        decreases len - i,
    {
        proof {
            let r = s@.skip(i as int);
            assert(r[0] == s@[i as int]);
            assert(r.drop_first() =~= s@.skip(i as int + 1));
        }
        i = i + 1;
    }
    proof {
        let r = s@.skip(i as int);
        if i < len {
            assert(r[0] == s@[i as int]);
        }
    }
    i
}

/// First index at or after `from` holding the delimiter `q`, or the end.
fn scan_quote(s: &str, from: usize, q: char) -> (e: usize)
    requires
        from <= s@.len(),
    ensures
        e - from == quote_run(s@.skip(from as int), q),
        from <= e <= s@.len(),
{
    let len = s.unicode_len();
    let mut i = from;
    while i < len && s.get_char(i) != q
        invariant
            from <= i <= len,
            len == s@.len(),
            quote_run(s@.skip(from as int), q) == i - from + quote_run(s@.skip(i as int), q),
        decreases len - i,
    {
        proof {
            let r = s@.skip(i as int);
            assert(r[0] == s@[i as int]);
            assert(r.drop_first() =~= s@.skip(i as int + 1));
        }
        i = i + 1;
    }
    proof {
        let r = s@.skip(i as int);
        if i < len {
            assert(r[0] == s@[i as int]);
        }
    }
    i
}

/// Number of characters a comment starting at `from` consumes.
fn scan_comment(s: &str, from: usize) -> (n: usize)
    requires
        from <= s@.len(),
    ensures
        n == comment_len(s@.skip(from as int)),
        from + n <= s@.len(),
{
    let len = s.unicode_len();
    let mut i = from;
    while len - i >= 3 && !(s.get_char(i) == '-' && s.get_char(i + 1) == '-' && s.get_char(i + 2)
        == '>')
        invariant
            from <= i <= len,
            len == s@.len(),
            comment_len(s@.skip(from as int)) == i - from + comment_len(s@.skip(i as int)),
        decreases len - i,
    {
        proof {
            let r = s@.skip(i as int);
            assert(r[0] == s@[i as int]);
            assert(r[1] == s@[i as int + 1]);
            assert(r[2] == s@[i as int + 2]);
            assert(r.drop_first() =~= s@.skip(i as int + 1));
        }
        i = i + 1;
    }
    proof {
        lemma_comment_len(s@.skip(i as int));
        let r = s@.skip(i as int);
        if len - i >= 3 {
            assert(r[0] == s@[i as int]);
            assert(r[1] == s@[i as int + 1]);
            assert(r[2] == s@[i as int + 2]);
        }
    }
    if len - i >= 3 {
        i - from + 3
    } else {
        len - from
    }
}

/// XML lexer: a single-pass cursor over the input with one token of
/// lookahead and a line/column position for diagnostics.
#[derive(Debug, Clone)]
pub struct Lexer<'a> {
    /// The whole input text.
    pub src: &'a str,
    /// Index (in characters) of the next character to consume.
    pub pos: usize,
    /// Current line, 1-indexed, advanced by counting newlines.
    pub line: usize,
    /// Current column, 1-indexed.
    pub column: usize,
    /// Lexer state, selected by the most recently emitted token kind.
    pub state: LexState,
    /// One-slot lookahead buffer.
    pub peeked: Option<Token<'a>>,
}

impl<'a> Lexer<'a> {
    /// The input characters not yet consumed.
    pub open spec fn rest(self) -> Seq<char> {
        self.src@.skip(self.pos as int)
    }

    pub open spec fn wf(self) -> bool {
        self.pos <= self.src@.len() && self.line >= 1 && self.column >= 1
    }

    /// The stream of tokens this lexer will still deliver, lookahead first.
    pub open spec fn toks(self) -> Seq<GTok> {
        match self.peeked {
            None => tokens_from(self.rest(), self.state),
            Some(t) => seq![t@] + tokens_from(self.rest(), self.state),
        }
    }

    pub fn new(src: &'a str) -> (r: Lexer<'a>)
        ensures
            r.wf(),
            r.src == src,
            r.pos == 0,
            r.peeked is None,
            r.line == 1,
            r.column == 1,
            r.toks() == tokens_from(src@, LexState::Content),
    {
        let r = Lexer { src, pos: 0, line: 1, column: 1, state: LexState::Content, peeked: None };
        proof {
            assert(src@.skip(0) =~= src@);
        }
        r
    }

    /// Report the current `(line, column)`, for diagnostics only.
    pub fn report(&self) -> (r: (usize, usize))
        ensures
            r == (self.line, self.column),
    {
        (self.line, self.column)
    }

    /// Advance the diagnostic position over the characters `from..to`:
    /// line and column after the call are exactly [`pos_advance`] of the
    /// position before it over that span.
    fn advance_span(&mut self, from: usize, to: usize)
        requires
            old(self).wf(),
            from <= to <= old(self).src@.len(),
        ensures
            final(self).wf(),
            final(self).src == old(self).src,
            final(self).pos == old(self).pos,
            final(self).state == old(self).state,
            final(self).peeked == old(self).peeked,
            (final(self).line, final(self).column) == pos_advance(
                (old(self).line, old(self).column),
                old(self).src@.subrange(from as int, to as int),
            ),
    {
        proof {
            assert(old(self).src@.subrange(from as int, from as int) =~= Seq::<char>::empty());
        }
        let mut i = from;
        while i < to
            invariant
                from <= i <= to,
                to <= self.src@.len(),
                self.wf(),
                self.src == old(self).src,
                self.pos == old(self).pos,
                self.state == old(self).state,
                self.peeked == old(self).peeked,
                (self.line, self.column) == pos_advance(
                    (old(self).line, old(self).column),
                    old(self).src@.subrange(from as int, i as int),
                ),
            decreases to - i,
        {
            let ghost pre = (self.line, self.column);
            let c = self.src.get_char(i);
            if c == '\n' {
                if self.line < usize::MAX {
                    self.line = self.line + 1;
                }
                self.column = 1;
            } else {
                if self.column < usize::MAX {
                    self.column = self.column + 1;
                }
            }
            proof {
                reveal_with_fuel(pos_advance, 2);
                let s = old(self).src@;
                lemma_pos_advance_concat(
                    (old(self).line, old(self).column),
                    s.subrange(from as int, i as int),
                    s.subrange(i as int, i as int + 1),
                );
                assert(s.subrange(from as int, i as int) + s.subrange(i as int, i as int + 1)
                    =~= s.subrange(from as int, i as int + 1));
                assert(s.subrange(i as int, i as int + 1)[0] == c);
                assert(s.subrange(i as int, i as int + 1).drop_first() =~= Seq::<char>::empty());
                assert((self.line, self.column) == pos_advance(
                    pre,
                    s.subrange(i as int, i as int + 1),
                ));
            }
            i = i + 1;
        }
    }

    /// Deliver the next token, or `None` at the end of the input.  The head
    /// of [`Lexer::toks`] is returned and removed from the stream.
    pub fn next(&mut self) -> (r: Option<Token<'a>>)
        requires
            old(self).wf(),
        ensures
            final(self).wf(),
            final(self).src == old(self).src,
            final(self).peeked is None,
            old(self).pos <= final(self).pos,
            (final(self).line, final(self).column) == pos_advance(
                (old(self).line, old(self).column),
                old(self).src@.subrange(old(self).pos as int, final(self).pos as int),
            ),
            match r {
                None => old(self).toks().len() == 0 && final(self).toks().len() == 0,
                Some(t) => old(self).toks().len() > 0 && t@ == old(self).toks()[0]
                    && final(self).toks() == old(self).toks().drop_first(),
            },
    {
        proof {
            assert(old(self).src@.subrange(old(self).pos as int, old(self).pos as int)
                =~= Seq::<char>::empty());
        }
        match self.peeked {
            Some(t) => {
                self.peeked = None;
                proof {
                    assert((seq![t@] + tokens_from(self.rest(), self.state)).drop_first()
                        =~= tokens_from(self.rest(), self.state));
                }
                return Some(t);
            },
            None => {},
        }
        loop
            invariant
                self.wf(),
                self.peeked is None,
                self.src == old(self).src,
                tokens_from(self.rest(), self.state) == old(self).toks(),
                old(self).pos <= self.pos,
                (self.line, self.column) == pos_advance(
                    (old(self).line, old(self).column),
                    old(self).src@.subrange(old(self).pos as int, self.pos as int),
                ),
            decreases self.src@.len() - self.pos,
        {
            let ghost rest = self.rest();
            let ghost st = self.state;
            let len = self.src.unicode_len();
            if self.pos == len {
                proof {
                    assert(rest.len() == 0);
                }
                return None;
            }
            let c = self.src.get_char(self.pos);
            proof {
                assert(rest[0] == c);
            }
            // whitespace inside a tag produces no token
            if self.state == LexState::Tag && space_char(c) {
                proof {
                    assert(rest.drop_first() =~= self.src@.skip(self.pos as int + 1));
                    assert(next_token(rest, st) == bump(next_token(rest.skip(1), st), 1));
                    lemma_tokens_from_skip(rest, st, 1);
                }
                let ghost mid = self.pos;
                self.advance_span(self.pos, self.pos + 1);
                self.pos = self.pos + 1;
                proof {
                    let s0 = old(self).src@;
                    lemma_pos_advance_concat(
                        (old(self).line, old(self).column),
                        s0.subrange(old(self).pos as int, mid as int),
                        s0.subrange(mid as int, self.pos as int),
                    );
                    assert(s0.subrange(old(self).pos as int, mid as int) + s0.subrange(
                        mid as int,
                        self.pos as int,
                    ) =~= s0.subrange(old(self).pos as int, self.pos as int));
                }
                continue;
            }
            // a comment is discarded entirely, wherever it appears
            if len - self.pos >= 4 && c == '<' && self.src.get_char(self.pos + 1) == '!'
                && self.src.get_char(self.pos + 2) == '-' && self.src.get_char(self.pos + 3)
                == '-' {
                proof {
                    assert(rest[1] == self.src@[self.pos as int + 1]);
                    assert(rest[2] == self.src@[self.pos as int + 2]);
                    assert(rest[3] == self.src@[self.pos as int + 3]);
                    assert(is_comment_start(rest));
                }
                let n = scan_comment(self.src, self.pos);
                proof {
                    lemma_comment_len(rest);
                    assert(next_token(rest, st) == bump(
                        next_token(rest.skip(comment_len(rest) as int), st),
                        comment_len(rest),
                    ));
                    lemma_tokens_from_skip(rest, st, comment_len(rest));
                    assert(rest.skip(n as int) =~= self.src@.skip(self.pos as int + n));
                }
                let ghost mid = self.pos;
                self.advance_span(self.pos, self.pos + n);
                self.pos = self.pos + n;
                proof {
                    let s0 = old(self).src@;
                    lemma_pos_advance_concat(
                        (old(self).line, old(self).column),
                        s0.subrange(old(self).pos as int, mid as int),
                        s0.subrange(mid as int, self.pos as int),
                    );
                    assert(s0.subrange(old(self).pos as int, mid as int) + s0.subrange(
                        mid as int,
                        self.pos as int,
                    ) =~= s0.subrange(old(self).pos as int, self.pos as int));
                }
                continue;
            }
            proof {
                assert(!is_comment_start(rest)) by {
                    if is_comment_start(rest) {
                        assert(rest[1] == self.src@[self.pos as int + 1]);
                        assert(rest[2] == self.src@[self.pos as int + 2]);
                        assert(rest[3] == self.src@[self.pos as int + 3]);
                    }
                }
            }
            let ghost mid = self.pos;
            let t = self.lex_one();
            proof {
                let s0 = old(self).src@;
                lemma_pos_advance_concat(
                    (old(self).line, old(self).column),
                    s0.subrange(old(self).pos as int, mid as int),
                    s0.subrange(mid as int, self.pos as int),
                );
                assert(s0.subrange(old(self).pos as int, mid as int) + s0.subrange(
                    mid as int,
                    self.pos as int,
                ) =~= s0.subrange(old(self).pos as int, self.pos as int));
            }
            return Some(t);
        }
    }

    /// Lex exactly one token.  The caller has already dealt with the end of
    /// the input, whitespace inside a tag, and comments.
    #[verifier::rlimit(80)]
    fn lex_one(&mut self) -> (r: Token<'a>)
        requires
            old(self).wf(),
            old(self).peeked is None,
            old(self).pos < old(self).src@.len(),
            !(old(self).state == LexState::Tag && is_space_char(old(self).rest()[0])),
            !is_comment_start(old(self).rest()),
        ensures
            final(self).wf(),
            final(self).src == old(self).src,
            final(self).peeked is None,
            tokens_from(old(self).rest(), old(self).state).len() > 0,
            r@ == tokens_from(old(self).rest(), old(self).state)[0],
            final(self).toks() == tokens_from(old(self).rest(), old(self).state).drop_first(),
            old(self).pos <= final(self).pos,
            (final(self).line, final(self).column) == pos_advance(
                (old(self).line, old(self).column),
                old(self).src@.subrange(old(self).pos as int, final(self).pos as int),
            ),
    {
        let ghost rest = self.rest();
        let ghost st = self.state;
        let len = self.src.unicode_len();
        let c = self.src.get_char(self.pos);
        proof {
            assert(rest[0] == c);
        }
        // one real token
        let (from, upto, kind, used, newstate): (usize, usize, TokenKind, usize, LexState);
            if c == '<' {
                let two = len - self.pos >= 2 && (self.src.get_char(self.pos + 1) == '?'
                    || self.src.get_char(self.pos + 1) == '/');
                proof {
                    if len - self.pos >= 2 {
                        assert(rest[1] == self.src@[self.pos as int + 1]);
                    }
                }
                if two {
                    from = self.pos;
                    upto = self.pos + 2;
                    kind = TokenKind::Open;
                    used = 2;
                    newstate = LexState::Tag;
                } else {
                    from = self.pos;
                    upto = self.pos + 1;
                    kind = TokenKind::Open;
                    used = 1;
                    newstate = LexState::Tag;
                }
            } else if self.state == LexState::Content {
                let e = scan_text(self.src, self.pos);
                from = self.pos;
                upto = e;
                kind = TokenKind::Text;
                used = e - self.pos;
                newstate = LexState::Content;
            } else if c == '>' {
                from = self.pos;
                upto = self.pos + 1;
                kind = TokenKind::Close;
                used = 1;
                newstate = LexState::Content;
            } else if (c == '?' || c == '/') && len - self.pos >= 2 && self.src.get_char(
                self.pos + 1,
            ) == '>' {
                proof {
                    assert(rest[1] == self.src@[self.pos as int + 1]);
                }
                from = self.pos;
                upto = self.pos + 2;
                kind = TokenKind::Close;
                used = 2;
                newstate = LexState::Content;
            } else if c == '=' {
                from = self.pos;
                upto = self.pos + 1;
                kind = TokenKind::Equals;
                used = 1;
                newstate = LexState::Tag;
            } else if c == '"' || c == '\'' {
                proof {
                    if len - self.pos >= 2 {
                        assert(rest[1] == self.src@[self.pos as int + 1]);
                    }
                    assert(rest.drop_first() =~= self.src@.skip(self.pos as int + 1));
                }
                let e = scan_quote(self.src, self.pos + 1, c);
                from = self.pos + 1;
                upto = e;
                kind = TokenKind::Value;
                newstate = LexState::Tag;
                if e < len {
                    used = e + 1 - self.pos;
                } else {
                    used = len - self.pos;
                }
            } else if name_char(c) {
                let e = scan_name(self.src, self.pos);
                from = self.pos;
                upto = e;
                kind = TokenKind::Name;
                used = e - self.pos;
                newstate = LexState::Tag;
            } else {
                from = self.pos;
                upto = self.pos + 1;
                kind = TokenKind::Stray;
                used = 1;
                newstate = LexState::Tag;
            }
            let text = self.src.substring_char(from, upto);
            let ghost tk = SpecTok { text: text@, kind, used: used as nat, state: newstate };
            proof {
                assert(text@ =~= rest.subrange(from - self.pos, upto - self.pos));
                if kind == TokenKind::Value {
                    let q = rest[0];
                    let n = quote_run(rest.drop_first(), q);
                    assert(quote_run(self.src@.skip(self.pos as int + 1), q) == n);
                    if n < rest.len() - 1 {
                        assert(text@ =~= rest.subrange(1, n as int + 1));
                    } else {
                        assert(text@ =~= rest.drop_first());
                    }
                }
                assert(next_token(rest, st) == Some(tk));
                lemma_next_token_used(rest, st);
                lemma_emit(self.src@, self.pos as int, st, tk);
                assert(self.src@.skip(self.pos as int + used) =~= self.src@.skip(
                    self.pos as int,
                ).skip(used as int));
            }
        // the position advances over every consumed character, including a
        // terminating quote that lies outside the token's text
        self.advance_span(self.pos, self.pos + used);
        self.pos = self.pos + used;
        self.state = newstate;
        Token { text, kind }
    }

    /// Peek at the next token without removing it from the stream.
    /// Idempotent: the stream is unchanged.
    pub fn peek(&mut self) -> (r: Option<Token<'a>>)
        requires
            old(self).wf(),
        ensures
            final(self).wf(),
            final(self).src == old(self).src,
            final(self).toks() == old(self).toks(),
            old(self).pos <= final(self).pos,
            (final(self).line, final(self).column) == pos_advance(
                (old(self).line, old(self).column),
                old(self).src@.subrange(old(self).pos as int, final(self).pos as int),
            ),
            match r {
                None => old(self).toks().len() == 0,
                Some(t) => old(self).toks().len() > 0 && t@ == old(self).toks()[0],
            },
    {
        proof {
            assert(old(self).src@.subrange(old(self).pos as int, old(self).pos as int)
                =~= Seq::<char>::empty());
        }
        if self.peeked.is_none() {
            let t = self.next();
            self.peeked = t;
            proof {
                match t {
                    None => {
                        assert(self.toks() =~= old(self).toks());
                    },
                    Some(tok) => {
                        assert(self.toks() =~= old(self).toks());
                    },
                }
            }
        }
        self.peeked
    }
}

} // verus!
