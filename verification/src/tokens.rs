//! The lexical token view that the parser walks.
//!
//! A token is either an atom (an identifier, a classified literal, or a
//! single-character sigil) or a delimited group holding a sub-sequence of
//! tokens. Each runtime token has a mathematical counterpart (`SpecToken`)
//! used by the parser's contracts.

use vstd::prelude::*;

verus! {

/// Which delimiter encloses a token group.
#[derive(Clone, Copy, PartialEq, Eq, Debug)]
pub enum Delim {
    Paren,
    Bracket,
    Brace,
}

/// A literal token, already classified by kind.
///
/// Textual kinds (strings, floats) carry their text as characters; numeric,
/// character and boolean kinds carry their value. Byte and byte-string
/// literals carry nothing: the parser rejects them.
#[derive(Clone, PartialEq, Eq, Debug)]
pub enum Lit {
    Str(Vec<char>),
    Char(char),
    Int(u64),
    Float(Vec<char>),
    Bool(bool),
    ByteStr,
    Byte,
}

/// One lexical token: an atom or a delimited group.
#[derive(PartialEq, Eq, Debug)]
pub enum Token {
    /// A plain identifier, e.g. a tag or attribute name.
    Ident(Vec<char>),
    /// A literal of any kind.
    Literal(Lit),
    /// The sigil `$`.
    Dollar,
    /// The sigil `.`.
    Dot,
    /// The sigil `=`.
    Equals,
    /// The sigil `!`.
    Bang,
    /// The sigil `?`.
    Question,
    /// The sigil `;`.
    Semi,
    /// The sigil `-`.
    Minus,
    /// The sigil `/`.
    Slash,
    /// A delimited group of tokens.
    Group(Delim, Vec<Token>),
}

/// Mathematical counterpart of [`Lit`].
pub ghost enum SpecLit {
    Str(Seq<char>),
    Char(char),
    Int(u64),
    Float(Seq<char>),
    Bool(bool),
    ByteStr,
    Byte,
}

/// Mathematical counterpart of [`Token`].
pub ghost enum SpecToken {
    Ident(Seq<char>),
    Literal(SpecLit),
    Dollar,
    Dot,
    Equals,
    Bang,
    Question,
    Semi,
    Minus,
    Slash,
    Group(Delim, Seq<SpecToken>),
}

impl View for Lit {
    type V = SpecLit;

    open spec fn view(&self) -> SpecLit {
        match self {
            Lit::Str(s) => SpecLit::Str(s@),
            Lit::Char(c) => SpecLit::Char(*c),
            Lit::Int(x) => SpecLit::Int(*x),
            Lit::Float(s) => SpecLit::Float(s@),
            Lit::Bool(b) => SpecLit::Bool(*b),
            Lit::ByteStr => SpecLit::ByteStr,
            Lit::Byte => SpecLit::Byte,
        }
    }
}

/// The view of one token, recursing into groups.
pub open spec fn tok_view(t: Token) -> SpecToken
    decreases t,
{
    match t {
        Token::Ident(s) => SpecToken::Ident(s@),
        Token::Literal(l) => SpecToken::Literal(l@),
        Token::Dollar => SpecToken::Dollar,
        Token::Dot => SpecToken::Dot,
        Token::Equals => SpecToken::Equals,
        Token::Bang => SpecToken::Bang,
        Token::Question => SpecToken::Question,
        Token::Semi => SpecToken::Semi,
        Token::Minus => SpecToken::Minus,
        Token::Slash => SpecToken::Slash,
        Token::Group(d, ts) => SpecToken::Group(d, toks_view(ts@)),
    }
}

/// The elementwise view of a token sequence.
pub open spec fn toks_view(ts: Seq<Token>) -> Seq<SpecToken>
    decreases ts,
{
    if ts.len() == 0 {
        Seq::empty()
    } else {
        seq![tok_view(ts[0])] + toks_view(ts.subrange(1, ts.len() as int))
    }
}

impl View for Token {
    type V = SpecToken;

    open spec fn view(&self) -> SpecToken {
        tok_view(*self)
    }
}

/// `toks_view` maps each element through `tok_view` and keeps the length.
pub proof fn lemma_toks_view(ts: Seq<Token>)
    ensures
        toks_view(ts).len() == ts.len(),
        forall|i: int| 0 <= i < ts.len() ==> toks_view(ts)[i] == tok_view(ts[i]),
    decreases ts.len(),
{
    if ts.len() > 0 {
        lemma_toks_view(ts.subrange(1, ts.len() as int));
    }
}

/// Structural size of one (spec) token: groups count themselves plus their
/// contents, so a group's contents are strictly smaller than the group.
pub open spec fn tok_size(t: SpecToken) -> nat
    decreases t,
{
    match t {
        SpecToken::Group(_, ts) => 1 + toks_size(ts),
        _ => 1,
    }
}

/// Structural size of a (spec) token sequence.
pub open spec fn toks_size(ts: Seq<SpecToken>) -> nat
    decreases ts,
{
    if ts.len() == 0 {
        0
    } else {
        tok_size(ts[0]) + toks_size(ts.subrange(1, ts.len() as int))
    }
}

/// Every token has size at least one.
pub proof fn lemma_tok_size_pos(t: SpecToken)
    ensures
        tok_size(t) >= 1,
{
}

/// Peeling the token at `i` off the suffix starting at `i`.
pub proof fn lemma_toks_size_skip_unfold(ts: Seq<SpecToken>, i: int)
    requires
        0 <= i < ts.len(),
    ensures
        toks_size(ts.skip(i)) == tok_size(ts[i]) + toks_size(ts.skip(i + 1)),
{
    let s = ts.skip(i);
    assert(s[0] == ts[i]);
    assert(s.subrange(1, s.len() as int) =~= ts.skip(i + 1));
}

/// Later suffixes never have a larger size, and are strictly smaller when
/// at least one token lies in between.
pub proof fn lemma_toks_size_skip_le(ts: Seq<SpecToken>, i: int, j: int)
    requires
        0 <= i <= j <= ts.len(),
    ensures
        toks_size(ts.skip(j)) <= toks_size(ts.skip(i)),
        i < j ==> toks_size(ts.skip(j)) + (j - i) <= toks_size(ts.skip(i)),
    decreases j - i,
{
    if i < j {
        lemma_toks_size_skip_unfold(ts, i);
        lemma_toks_size_skip_le(ts, i + 1, j);
        lemma_tok_size_pos(ts[i]);
    } else {
        assert(ts.skip(i) =~= ts.skip(j));
    }
}

/// The whole sequence is the suffix at zero.
pub proof fn lemma_toks_size_skip_zero(ts: Seq<SpecToken>)
    ensures
        toks_size(ts.skip(0)) == toks_size(ts),
{
    assert(ts.skip(0) =~= ts);
}

/// The characters of the keyword `if`.
pub open spec fn kw_if() -> Seq<char> {
    seq!['i', 'f']
}

/// The characters of the keyword `else`.
pub open spec fn kw_else() -> Seq<char> {
    seq!['e', 'l', 's', 'e']
}

/// Whether a token is the identifier with the given text.
pub open spec fn is_kw(t: SpecToken, kw: Seq<char>) -> bool {
    t matches SpecToken::Ident(s) && s == kw
}

/// Whether a token is a brace-delimited group.
pub open spec fn is_brace_group(t: SpecToken) -> bool {
    t matches SpecToken::Group(Delim::Brace, _)
}

/// The contents of a group token; empty for an atom.
pub open spec fn group_inner(t: SpecToken) -> Seq<SpecToken> {
    match t {
        SpecToken::Group(_, ts) => ts,
        _ => Seq::empty(),
    }
}

/// The text of an identifier token; empty for any other token.
pub open spec fn ident_text(t: SpecToken) -> Seq<char> {
    match t {
        SpecToken::Ident(s) => s,
        _ => Seq::empty(),
    }
}

/// The literal carried by a literal token.
pub open spec fn lit_of(t: SpecToken) -> SpecLit {
    match t {
        SpecToken::Literal(l) => l,
        _ => arbitrary(),
    }
}

/// Consuming at least one token strictly shrinks the suffix's size.
pub proof fn lemma_toks_size_skip_smaller(ts: Seq<SpecToken>, k: int)
    requires
        0 < k <= ts.len(),
    ensures
        toks_size(ts.skip(k)) + k <= toks_size(ts),
{
    lemma_toks_size_skip_zero(ts);
    lemma_toks_size_skip_le(ts, 0, k);
}

/// Two suffix steps compose.
pub proof fn lemma_skip_skip(ts: Seq<SpecToken>, a: int, b: int)
    requires
        0 <= a,
        0 <= b,
        a + b <= ts.len(),
    ensures
        ts.skip(a).skip(b) == ts.skip(a + b),
{
    assert(ts.skip(a).skip(b) =~= ts.skip(a + b));
}

/// A group's contents are strictly smaller than any sequence the group
/// token sits in.
pub proof fn lemma_group_inner_smaller(ts: Seq<SpecToken>, i: int)
    requires
        0 <= i < ts.len(),
        ts[i] matches SpecToken::Group(_, _),
    ensures
        toks_size(group_inner(ts[i])) < toks_size(ts),
{
    lemma_tok_size_elem(ts, i);
}

/// Appending token sequences appends their views.
pub proof fn lemma_toks_view_add(a: Seq<Token>, b: Seq<Token>)
    ensures
        toks_view(a + b) == toks_view(a) + toks_view(b),
    decreases a.len(),
{
    if a.len() == 0 {
        assert(a + b =~= b);
        assert(toks_view(a) + toks_view(b) =~= toks_view(b));
    } else {
        lemma_toks_view_add(a.subrange(1, a.len() as int), b);
        assert((a + b).subrange(1, (a + b).len() as int) =~= a.subrange(1, a.len() as int) + b);
        assert(toks_view(a + b) =~= toks_view(a) + toks_view(b));
    }
}

/// A pushed token appends its view.
pub proof fn lemma_toks_view_push(v: Seq<Token>, t: Token)
    ensures
        toks_view(v.push(t)) == toks_view(v).push(tok_view(t)),
{
    assert(v.push(t) =~= v + seq![t]);
    lemma_toks_view_add(v, seq![t]);
    reveal_with_fuel(toks_view, 2);
    assert(seq![t].subrange(1, 1) =~= Seq::<Token>::empty());
    assert(toks_view(seq![t]) =~= seq![tok_view(t)]);
    assert(toks_view(v).push(tok_view(t)) =~= toks_view(v) + seq![tok_view(t)]);
}

/// Each token's size is bounded by the size of any sequence it sits in.
pub proof fn lemma_tok_size_elem(ts: Seq<SpecToken>, i: int)
    requires
        0 <= i < ts.len(),
    ensures
        tok_size(ts[i]) <= toks_size(ts),
{
    lemma_toks_size_skip_zero(ts);
    lemma_toks_size_skip_le(ts, 0, i);
    lemma_toks_size_skip_unfold(ts, i);
}

/// Copy a character vector.
pub fn copy_chars(s: &Vec<char>) -> (r: Vec<char>)
    ensures
        r@ == s@,
{
    let mut r: Vec<char> = Vec::new();
    let mut i: usize = 0;
    while i < s.len()
        invariant
            i <= s.len(),
            r@ == s@.subrange(0, i as int),
        decreases s.len() - i,
    {
        r.push(s[i]);
        proof {
            assert(r@ =~= s@.subrange(0, i + 1 as int));
        }
        i += 1;
    }
    proof {
        assert(s@.subrange(0, s@.len() as int) =~= s@);
    }
    r
}

/// Copy a literal.
pub fn copy_lit(l: &Lit) -> (r: Lit)
    ensures
        r@ == l@,
{
    match l {
        Lit::Str(s) => Lit::Str(copy_chars(s)),
        Lit::Char(c) => Lit::Char(*c),
        Lit::Int(x) => Lit::Int(*x),
        Lit::Float(s) => Lit::Float(copy_chars(s)),
        Lit::Bool(b) => Lit::Bool(*b),
        Lit::ByteStr => Lit::ByteStr,
        Lit::Byte => Lit::Byte,
    }
}

/// Copy one token, groups included.
pub fn copy_tok(t: &Token) -> (r: Token)
    ensures
        r@ == t@,
    decreases tok_size(t@), 0nat,
{
    match t {
        Token::Ident(s) => Token::Ident(copy_chars(s)),
        Token::Literal(l) => Token::Literal(copy_lit(l)),
        Token::Dollar => Token::Dollar,
        Token::Dot => Token::Dot,
        Token::Equals => Token::Equals,
        Token::Bang => Token::Bang,
        Token::Question => Token::Question,
        Token::Semi => Token::Semi,
        Token::Minus => Token::Minus,
        Token::Slash => Token::Slash,
        Token::Group(d, ts) => {
            let r = Token::Group(*d, copy_toks(ts));
            proof {
                assert(r@ == t@);
            }
            r
        },
    }
}

/// Copy a token sequence, element by element.
pub fn copy_toks(ts: &Vec<Token>) -> (r: Vec<Token>)
    ensures
        toks_view(r@) == toks_view(ts@),
    decreases toks_size(toks_view(ts@)), 1nat,
{
    let ghost full = toks_view(ts@);
    proof {
        lemma_toks_view(ts@);
    }
    let mut r: Vec<Token> = Vec::new();
    let mut i: usize = 0;
    while i < ts.len()
        invariant
            i <= ts.len(),
            full == toks_view(ts@),
            full.len() == ts@.len(),
            forall|j: int| 0 <= j < ts@.len() ==> full[j] == tok_view(ts@[j]),
            toks_view(r@) == full.subrange(0, i as int),
        decreases ts.len() - i,
    {
        proof {
            lemma_tok_size_elem(full, i as int);
        }
        let c = copy_tok(&ts[i]);
        proof {
            lemma_toks_view_push(r@, c);
            assert(toks_view(r@).push(tok_view(c)) =~= full.subrange(0, i + 1 as int));
        }
        r.push(c);
        i += 1;
    }
    proof {
        assert(full.subrange(0, ts@.len() as int) =~= full);
    }
    r
}

} // verus!
