//! Output-construction operations and parse errors.
//!
//! The parser does not build a syntax tree: it records a linear sequence of
//! operations that a rendering backend later assembles into one escaped
//! output value. Conditional branches carry their captured operations as a
//! payload, so the backend can compile them to exactly-one-branch code.

use vstd::prelude::*;
use crate::tokens::{Token, SpecToken, toks_view};

verus! {

/// Whether appended output is escaped for safe embedding or passed through raw.
#[derive(Clone, Copy, PartialEq, Eq, Debug)]
pub enum Escape {
    Escape,
    PassThru,
}

/// One output-construction operation recorded by the accumulator.
#[derive(PartialEq, Eq, Debug)]
pub enum Op {
    /// Append fixed text, escaped or raw.
    AppendText(Vec<char>, Escape),
    /// Append the runtime value of a spliced expression, given as the token
    /// slice that is handed to the expression sub-parser.
    AppendExpr(Vec<Token>, Escape),
    /// Begin an opening tag: `<name`.
    OpenTagStart(Vec<char>),
    /// Finish the opening tag: `>`.
    OpenTagEnd,
    /// Emit a closing tag: `</name>`.
    CloseTag(Vec<char>),
    /// Begin an attribute value: ` name="`.
    AttrStart(Vec<char>),
    /// Finish the attribute value: `"`.
    AttrEnd,
    /// Emit a presence-only attribute: ` name`.
    AttrEmpty(Vec<char>),
    /// Splice a nested operation sequence inline, in emission order.
    Block(Vec<Op>),
    /// Run exactly one branch at rendering time: the first operation
    /// sequence when the condition tokens evaluate true, otherwise the
    /// second (or nothing when it is absent).
    If(Vec<Token>, Vec<Op>, Option<Vec<Op>>),
}

/// Mathematical counterpart of [`Op`].
pub ghost enum SpecOp {
    AppendText(Seq<char>, Escape),
    AppendExpr(Seq<SpecToken>, Escape),
    OpenTagStart(Seq<char>),
    OpenTagEnd,
    CloseTag(Seq<char>),
    AttrStart(Seq<char>),
    AttrEnd,
    AttrEmpty(Seq<char>),
    Block(Seq<SpecOp>),
    If(Seq<SpecToken>, Seq<SpecOp>, Option<Seq<SpecOp>>),
}

/// The view of one operation, recursing into captured branches.
pub open spec fn op_view(o: Op) -> SpecOp
    decreases o,
{
    match o {
        Op::AppendText(s, e) => SpecOp::AppendText(s@, e),
        Op::AppendExpr(ts, e) => SpecOp::AppendExpr(toks_view(ts@), e),
        Op::OpenTagStart(s) => SpecOp::OpenTagStart(s@),
        Op::OpenTagEnd => SpecOp::OpenTagEnd,
        Op::CloseTag(s) => SpecOp::CloseTag(s@),
        Op::AttrStart(s) => SpecOp::AttrStart(s@),
        Op::AttrEnd => SpecOp::AttrEnd,
        Op::AttrEmpty(s) => SpecOp::AttrEmpty(s@),
        Op::Block(v) => SpecOp::Block(ops_view(v@)),
        Op::If(c, t, e) => SpecOp::If(
            toks_view(c@),
            ops_view(t@),
            match e {
                Option::Some(v) => Option::Some(ops_view(v@)),
                Option::None => Option::None,
            },
        ),
    }
}

/// The elementwise view of an operation sequence.
pub open spec fn ops_view(v: Seq<Op>) -> Seq<SpecOp>
    decreases v,
{
    if v.len() == 0 {
        Seq::empty()
    } else {
        seq![op_view(v[0])] + ops_view(v.subrange(1, v.len() as int))
    }
}

impl View for Op {
    type V = SpecOp;

    open spec fn view(&self) -> SpecOp {
        op_view(*self)
    }
}

/// `ops_view` maps each element through `op_view` and keeps the length.
pub proof fn lemma_ops_view(v: Seq<Op>)
    ensures
        ops_view(v).len() == v.len(),
        forall|i: int| 0 <= i < v.len() ==> ops_view(v)[i] == op_view(v[i]),
    decreases v.len(),
{
    if v.len() > 0 {
        lemma_ops_view(v.subrange(1, v.len() as int));
    }
}

/// Appending operation sequences appends their views.
pub proof fn lemma_ops_view_add(a: Seq<Op>, b: Seq<Op>)
    ensures
        ops_view(a + b) == ops_view(a) + ops_view(b),
    decreases a.len(),
{
    if a.len() == 0 {
        assert(a + b =~= b);
        assert(ops_view(a) + ops_view(b) =~= ops_view(b));
    } else {
        lemma_ops_view_add(a.subrange(1, a.len() as int), b);
        assert((a + b).subrange(1, (a + b).len() as int) =~= a.subrange(1, a.len() as int) + b);
        assert(ops_view(a + b) =~= ops_view(a) + ops_view(b));
    }
}

/// A pushed operation appends its view.
pub proof fn lemma_ops_view_push(v: Seq<Op>, o: Op)
    ensures
        ops_view(v.push(o)) == ops_view(v).push(op_view(o)),
{
    assert(v.push(o) =~= v + seq![o]);
    lemma_ops_view_add(v, seq![o]);
    reveal_with_fuel(ops_view, 2);
    assert(seq![o].subrange(1, 1) =~= Seq::<Op>::empty());
    assert(ops_view(seq![o]) =~= seq![op_view(o)]);
    assert(ops_view(v).push(op_view(o)) =~= ops_view(v) + seq![op_view(o)]);
}

/// A recoverable diagnostic: it is reported and the current markup unit
/// stops producing output, but the surrounding parse may continue so that
/// further diagnostics can be collected.
#[derive(Clone, Copy, PartialEq, Eq, Debug)]
pub enum Diag {
    /// No grammar rule matches the next token.
    InvalidSyntax,
    /// A block ended where one more markup unit was expected.
    UnexpectedEndOfBlock,
    /// A byte or byte-string literal in literal position.
    CannotSpliceBinary,
    /// An element where an attribute value was expected.
    UnexpectedElement,
}

/// A fatal error: the whole parse stops at once with no usable output.
#[derive(Clone, Copy, PartialEq, Eq, Debug)]
pub enum Fatal {
    /// An `$if` condition ran to the end of input with no braced body.
    ExpectedIfBody,
    /// A `$` splice with no expression tokens after it.
    ExpectedSpliceExpr,
    /// `$else` followed by neither `if` nor a braced body.
    InvalidElseSyntax,
}

impl Diag {
    /// The diagnostic's message text.
    pub fn message(&self) -> (r: String)
        ensures
            self is InvalidSyntax ==> r@ == "invalid syntax"@,
            self is UnexpectedEndOfBlock ==> r@ == "unexpected end of block"@,
            self is CannotSpliceBinary ==> r@ == "cannot splice binary data"@,
            self is UnexpectedElement ==> r@ == "unexpected element, you silly bumpkin"@,
    {
        match self {
            Diag::InvalidSyntax => "invalid syntax".to_owned(),
            Diag::UnexpectedEndOfBlock => "unexpected end of block".to_owned(),
            Diag::CannotSpliceBinary => "cannot splice binary data".to_owned(),
            Diag::UnexpectedElement => "unexpected element, you silly bumpkin".to_owned(),
        }
    }
}

impl Fatal {
    /// The error's message text.
    pub fn message(&self) -> (r: String)
        ensures
            self is ExpectedIfBody ==> r@ == "expected body for this `if`"@,
            self is ExpectedSpliceExpr ==> r@ == "expected expression for this splice"@,
            self is InvalidElseSyntax ==> r@ == "invalid syntax"@,
    {
        match self {
            Fatal::ExpectedIfBody => "expected body for this `if`".to_owned(),
            Fatal::ExpectedSpliceExpr => "expected expression for this splice".to_owned(),
            Fatal::InvalidElseSyntax => "invalid syntax".to_owned(),
        }
    }
}

} // verus!
