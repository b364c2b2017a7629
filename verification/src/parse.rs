//! The markup parser: a single-pass recursive-descent engine.
//!
//! Each grammar rule consumes a prefix of the token stream and immediately
//! appends the corresponding operations to the accumulator; there is no
//! intermediate tree. The mathematical functions `spec_markups`,
//! `spec_markup`, `spec_if_expr`, `spec_splice`, `spec_element` and
//! `spec_attrs` define the grammar and the emitted operations; the executable
//! parser is proved to produce exactly what they describe.

use vstd::prelude::*;
use crate::tokens::{
    Delim, Lit, SpecLit, SpecToken, Token, copy_chars, copy_tok, copy_toks, group_inner,
    ident_text, is_brace_group, is_kw, kw_else, kw_if, lemma_group_inner_smaller, lemma_skip_skip,
    lemma_toks_size_skip_le, lemma_toks_size_skip_smaller, lemma_toks_size_skip_zero,
    lemma_toks_view, lemma_toks_view_push, lit_of, tok_view, toks_size, toks_view,
};
use crate::ops::{
    Diag, Escape, Fatal, Op, SpecOp, lemma_ops_view, lemma_ops_view_push, op_view, ops_view,
};
use crate::text::{lit_text, lit_to_string};

verus! {

/// What one parsing step contributes: the tokens it leaves unconsumed, the
/// operations and diagnostics it appends, whether it hit a fatal error, and
/// whether the enclosing loop may go on.
pub ghost struct Step {
    pub rest: Seq<SpecToken>,
    pub ops: Seq<SpecOp>,
    pub diags: Seq<Diag>,
    pub fatal: Option<Fatal>,
    pub cont: bool,
}

/// What a splice extraction contributes: the tokens it leaves, the captured
/// expression slice, and whether it failed.
pub ghost struct SpliceStep {
    pub rest: Seq<SpecToken>,
    pub expr: Seq<SpecToken>,
    pub fatal: Option<Fatal>,
}

/// The index of the first brace-delimited group, if any.
pub open spec fn first_brace(ts: Seq<SpecToken>) -> Option<int>
    decreases ts.len(),
{
    if ts.len() == 0 {
        Option::None
    } else if is_brace_group(ts[0]) {
        Option::Some(0)
    } else {
        match first_brace(ts.skip(1)) {
            Option::Some(i) => Option::Some(i + 1),
            Option::None => Option::None,
        }
    }
}

/// `first_brace` finds the least index of a brace group.
pub proof fn lemma_first_brace(ts: Seq<SpecToken>)
    ensures
        match first_brace(ts) {
            Option::Some(i) => {
                &&& 0 <= i < ts.len()
                &&& is_brace_group(ts[i])
                &&& forall|j: int| 0 <= j < i ==> !is_brace_group(ts[j])
            },
            Option::None => forall|j: int| 0 <= j < ts.len() ==> !is_brace_group(ts[j]),
        },
    decreases ts.len(),
{
    if ts.len() > 0 && !is_brace_group(ts[0]) {
        lemma_first_brace(ts.skip(1));
        let s = ts.skip(1);
        match first_brace(s) {
            Option::Some(i) => {
                assert(is_brace_group(ts[i + 1])) by {
                    assert(ts[i + 1] == s[i]);
                }
                assert forall|j: int| 0 <= j < i + 1 implies !is_brace_group(ts[j]) by {
                    if j >= 1 {
                        assert(ts[j] == s[j - 1]);
                    }
                }
            },
            Option::None => {
                assert forall|j: int| 0 <= j < ts.len() implies !is_brace_group(ts[j]) by {
                    if j >= 1 {
                        assert(ts[j] == s[j - 1]);
                    }
                }
            },
        }
    }
}

/// One layer of visibly redundant parentheses is stripped from a captured
/// boolean expression: a slice that is exactly one parenthesized group
/// becomes that group's contents.
pub open spec fn spec_strip_outer_parens(e: Seq<SpecToken>) -> Seq<SpecToken> {
    if e.len() == 1 && e[0] matches SpecToken::Group(Delim::Paren, _) {
        group_inner(e[0])
    } else {
        e
    }
}

/// Greedy continuation of a splice: `. ident` chains and non-brace groups
/// (call arguments or index subscripts), stopping at the first token that
/// matches neither.
pub open spec fn spec_splice_ext(ts: Seq<SpecToken>) -> SpliceStep
    decreases toks_size(ts), 0nat,
{
    if ts.len() >= 2 && ts[0] is Dot && ts[1] matches SpecToken::Ident(_) {
        proof {
            lemma_toks_size_skip_smaller(ts, 2);
        }
        let e = spec_splice_ext(ts.skip(2));
        SpliceStep { rest: e.rest, expr: seq![ts[0], ts[1]] + e.expr, fatal: Option::None }
    } else if ts.len() >= 1 && (ts[0] matches SpecToken::Group(d, _) && !(d is Brace)) {
        proof {
            lemma_toks_size_skip_smaller(ts, 1);
        }
        let e = spec_splice_ext(ts.skip(1));
        SpliceStep { rest: e.rest, expr: seq![ts[0]] + e.expr, fatal: Option::None }
    } else {
        SpliceStep { rest: ts, expr: Seq::empty(), fatal: Option::None }
    }
}

/// Splice extraction: one token unconditionally, then the greedy
/// continuation; an empty capture is a fatal error.
pub open spec fn spec_splice(ts: Seq<SpecToken>) -> SpliceStep {
    if ts.len() == 0 {
        SpliceStep {
            rest: ts,
            expr: Seq::empty(),
            fatal: Option::Some(Fatal::ExpectedSpliceExpr),
        }
    } else {
        let e = spec_splice_ext(ts.skip(1));
        SpliceStep { rest: e.rest, expr: seq![ts[0]] + e.expr, fatal: Option::None }
    }
}

/// The markup-unit loop: units are parsed until the tokens run out, a stray
/// `;` is skipped, and a unit that reports failure stops the loop early.
pub open spec fn spec_markups(in_attr: bool, ts: Seq<SpecToken>) -> Step
    decreases toks_size(ts), 3nat,
{
    if ts.len() == 0 {
        Step {
            rest: ts,
            ops: Seq::empty(),
            diags: Seq::empty(),
            fatal: Option::None,
            cont: true,
        }
    } else if ts[0] is Semi {
        proof {
            lemma_toks_size_skip_smaller(ts, 1);
        }
        spec_markups(in_attr, ts.skip(1))
    } else {
        let m = spec_markup(in_attr, ts);
        if m.fatal is Some || !m.cont {
            m
        } else if toks_size(m.rest) < toks_size(ts) {
            let r = spec_markups(in_attr, m.rest);
            Step {
                rest: r.rest,
                ops: m.ops + r.ops,
                diags: m.diags + r.diags,
                fatal: r.fatal,
                cont: r.cont,
            }
        } else {
            m
        }
    }
}

/// Unit dispatch: longest-meaningful-prefix matching over the next one or
/// two tokens, tried in precedence order.
pub open spec fn spec_markup(in_attr: bool, ts: Seq<SpecToken>) -> Step
    decreases toks_size(ts), 0nat,
{
    if ts.len() >= 2 && ts[0] is Minus && ts[1] matches SpecToken::Literal(_) {
        spec_literal_step(ts, 2, lit_of(ts[1]), true)
    } else if ts.len() >= 1 && ts[0] matches SpecToken::Literal(_) {
        spec_literal_step(ts, 1, lit_of(ts[0]), false)
    } else if ts.len() >= 2 && ts[0] is Dollar && is_kw(ts[1], kw_if()) {
        proof {
            lemma_toks_size_skip_smaller(ts, 2);
        }
        let f = spec_if_expr(in_attr, ts.skip(2));
        Step { rest: f.rest, ops: f.ops, diags: f.diags, fatal: f.fatal, cont: true }
    } else if ts.len() >= 2 && ts[0] is Dollar && ts[1] is Dollar {
        proof {
            lemma_toks_size_skip_smaller(ts, 2);
        }
        let sp = spec_splice(ts.skip(2));
        if sp.fatal is Some {
            Step {
                rest: sp.rest,
                ops: Seq::empty(),
                diags: Seq::empty(),
                fatal: sp.fatal,
                cont: true,
            }
        } else {
            Step {
                rest: sp.rest,
                ops: seq![SpecOp::AppendExpr(sp.expr, Escape::PassThru)],
                diags: Seq::empty(),
                fatal: Option::None,
                cont: true,
            }
        }
    } else if ts.len() >= 1 && ts[0] is Dollar {
        proof {
            lemma_toks_size_skip_smaller(ts, 1);
        }
        let sp = spec_splice(ts.skip(1));
        if sp.fatal is Some {
            Step {
                rest: sp.rest,
                ops: Seq::empty(),
                diags: Seq::empty(),
                fatal: sp.fatal,
                cont: true,
            }
        } else {
            Step {
                rest: sp.rest,
                ops: seq![SpecOp::AppendExpr(sp.expr, Escape::Escape)],
                diags: Seq::empty(),
                fatal: Option::None,
                cont: true,
            }
        }
    } else if ts.len() >= 1 && ts[0] matches SpecToken::Ident(_) {
        proof {
            lemma_toks_size_skip_smaller(ts, 1);
        }
        spec_element(in_attr, ident_text(ts[0]), ts.skip(1))
    } else if ts.len() >= 1 && is_brace_group(ts[0]) {
        proof {
            lemma_group_inner_smaller(ts, 0);
        }
        let b = spec_markups(in_attr, group_inner(ts[0]));
        if b.fatal is Some {
            Step {
                rest: ts.skip(1),
                ops: Seq::empty(),
                diags: b.diags,
                fatal: b.fatal,
                cont: true,
            }
        } else {
            Step {
                rest: ts.skip(1),
                ops: seq![SpecOp::Block(b.ops)],
                diags: b.diags,
                fatal: Option::None,
                cont: true,
            }
        }
    } else if ts.len() >= 1 {
        Step {
            rest: ts,
            ops: Seq::empty(),
            diags: seq![Diag::InvalidSyntax],
            fatal: Option::None,
            cont: false,
        }
    } else {
        Step {
            rest: ts,
            ops: Seq::empty(),
            diags: seq![Diag::UnexpectedEndOfBlock],
            fatal: Option::None,
            cont: false,
        }
    }
}

/// A literal unit: the literal's canonical text is appended escaped; binary
/// data is rejected with a diagnostic and nothing is emitted.
pub open spec fn spec_literal_step(ts: Seq<SpecToken>, k: int, l: SpecLit, minus: bool) -> Step {
    match lit_text(l, minus) {
        Option::Some(s) => Step {
            rest: ts.skip(k),
            ops: seq![SpecOp::AppendText(s, Escape::Escape)],
            diags: Seq::empty(),
            fatal: Option::None,
            cont: true,
        },
        Option::None => Step {
            rest: ts.skip(k),
            ops: Seq::empty(),
            diags: seq![Diag::CannotSpliceBinary],
            fatal: Option::None,
            cont: true,
        },
    }
}

/// The conditional construct, entered after `$ if`: tokens up to the first
/// brace group form the condition, the group is the `then` body, and an
/// optional `$ else` is followed by either another conditional (captured in
/// isolation as the else branch) or a terminal brace-group body. Exactly one
/// conditional operation is emitted.
pub open spec fn spec_if_expr(in_attr: bool, ts: Seq<SpecToken>) -> Step
    decreases toks_size(ts), 0nat,
{
    match first_brace(ts) {
        Option::None => Step {
            rest: ts.skip(ts.len() as int),
            ops: Seq::empty(),
            diags: Seq::empty(),
            fatal: Option::Some(Fatal::ExpectedIfBody),
            cont: true,
        },
        Option::Some(i) => {
            proof {
                lemma_first_brace(ts);
                lemma_group_inner_smaller(ts, i);
            }
            let cond = ts.subrange(0, i);
            let b = spec_markups(in_attr, group_inner(ts[i]));
            if b.fatal is Some {
                Step {
                    rest: ts.skip(i + 1),
                    ops: Seq::empty(),
                    diags: b.diags,
                    fatal: b.fatal,
                    cont: true,
                }
            } else {
                let rest1 = ts.skip(i + 1);
                if rest1.len() >= 2 && rest1[0] is Dollar && is_kw(rest1[1], kw_else()) {
                    let rest2 = rest1.skip(2);
                    if rest2.len() >= 1 && is_kw(rest2[0], kw_if()) {
                        proof {
                            lemma_first_brace(ts);
                            lemma_skip_skip(ts, i + 1, 2);
                            lemma_skip_skip(ts, i + 3, 1);
                            lemma_toks_size_skip_smaller(ts, i + 4);
                        }
                        let e = spec_if_expr(in_attr, rest2.skip(1));
                        if e.fatal is Some {
                            Step {
                                rest: e.rest,
                                ops: Seq::empty(),
                                diags: b.diags + e.diags,
                                fatal: e.fatal,
                                cont: true,
                            }
                        } else {
                            Step {
                                rest: e.rest,
                                ops: seq![SpecOp::If(cond, b.ops, Option::Some(e.ops))],
                                diags: b.diags + e.diags,
                                fatal: Option::None,
                                cont: true,
                            }
                        }
                    } else if rest2.len() >= 1 && is_brace_group(rest2[0]) {
                        proof {
                            lemma_first_brace(ts);
                            lemma_skip_skip(ts, i + 1, 2);
                            lemma_group_inner_smaller(ts.skip(i + 3), 0);
                            lemma_toks_size_skip_smaller(ts, i + 3);
                        }
                        let eb = spec_markups(in_attr, group_inner(rest2[0]));
                        if eb.fatal is Some {
                            Step {
                                rest: rest2.skip(1),
                                ops: Seq::empty(),
                                diags: b.diags + eb.diags,
                                fatal: eb.fatal,
                                cont: true,
                            }
                        } else {
                            Step {
                                rest: rest2.skip(1),
                                ops: seq![SpecOp::If(cond, b.ops, Option::Some(eb.ops))],
                                diags: b.diags + eb.diags,
                                fatal: Option::None,
                                cont: true,
                            }
                        }
                    } else {
                        Step {
                            rest: rest2,
                            ops: Seq::empty(),
                            diags: b.diags,
                            fatal: Option::Some(Fatal::InvalidElseSyntax),
                            cont: true,
                        }
                    }
                } else {
                    Step {
                        rest: rest1,
                        ops: seq![SpecOp::If(cond, b.ops, Option::None)],
                        diags: b.diags,
                        fatal: Option::None,
                        cont: true,
                    }
                }
            }
        },
    }
}

/// An element, entered after its tag name: forbidden in attribute-value
/// position; otherwise the opening tag with its attributes, then either a
/// `/` for a self-closing element or exactly one markup unit as the body
/// followed by the closing tag.
pub open spec fn spec_element(in_attr: bool, name: Seq<char>, ts: Seq<SpecToken>) -> Step
    decreases toks_size(ts), 2nat,
{
    if in_attr {
        Step {
            rest: ts,
            ops: Seq::empty(),
            diags: seq![Diag::UnexpectedElement],
            fatal: Option::None,
            cont: true,
        }
    } else {
        let a = spec_attrs(in_attr, ts);
        if a.fatal is Some {
            Step {
                rest: a.rest,
                ops: seq![SpecOp::OpenTagStart(name)] + a.ops,
                diags: a.diags,
                fatal: a.fatal,
                cont: true,
            }
        } else {
            let opened = seq![SpecOp::OpenTagStart(name)] + a.ops + seq![SpecOp::OpenTagEnd];
            if a.rest.len() >= 1 && a.rest[0] is Slash {
                Step {
                    rest: a.rest.skip(1),
                    ops: opened,
                    diags: a.diags,
                    fatal: Option::None,
                    cont: true,
                }
            } else if toks_size(a.rest) <= toks_size(ts) {
                let m = spec_markup(in_attr, a.rest);
                if m.fatal is Some {
                    Step {
                        rest: m.rest,
                        ops: opened + m.ops,
                        diags: a.diags + m.diags,
                        fatal: m.fatal,
                        cont: true,
                    }
                } else {
                    Step {
                        rest: m.rest,
                        ops: opened + m.ops + seq![SpecOp::CloseTag(name)],
                        diags: a.diags + m.diags,
                        fatal: Option::None,
                        cont: true,
                    }
                }
            } else {
                Step {
                    rest: a.rest,
                    ops: opened,
                    diags: a.diags,
                    fatal: Option::None,
                    cont: true,
                }
            }
        }
    }
}

/// The attribute loop: `name = value` parses one markup unit in
/// attribute-value context; `name ?` emits a presence-only attribute,
/// unconditionally without `=`, and guarded by a captured boolean expression
/// with `=`. The loop stops at the first token pair matching neither form.
pub open spec fn spec_attrs(in_attr: bool, ts: Seq<SpecToken>) -> Step
    decreases toks_size(ts), 1nat,
{
    if ts.len() >= 2 && (ts[0] matches SpecToken::Ident(_)) && ts[1] is Equals {
        proof {
            lemma_toks_size_skip_smaller(ts, 2);
        }
        let name = ident_text(ts[0]);
        let m = spec_markup(true, ts.skip(2));
        if m.fatal is Some {
            Step {
                rest: m.rest,
                ops: seq![SpecOp::AttrStart(name)] + m.ops,
                diags: m.diags,
                fatal: m.fatal,
                cont: true,
            }
        } else if toks_size(m.rest) < toks_size(ts) {
            let r = spec_attrs(in_attr, m.rest);
            Step {
                rest: r.rest,
                ops: seq![SpecOp::AttrStart(name)] + m.ops + seq![SpecOp::AttrEnd] + r.ops,
                diags: m.diags + r.diags,
                fatal: r.fatal,
                cont: true,
            }
        } else {
            Step {
                rest: m.rest,
                ops: seq![SpecOp::AttrStart(name)] + m.ops + seq![SpecOp::AttrEnd],
                diags: m.diags,
                fatal: Option::None,
                cont: true,
            }
        }
    } else if ts.len() >= 2 && (ts[0] matches SpecToken::Ident(_)) && ts[1] is Question {
        let name = ident_text(ts[0]);
        if ts.len() >= 3 && ts[2] is Equals {
            proof {
                lemma_toks_size_skip_smaller(ts, 3);
            }
            let sp = spec_splice(ts.skip(3));
            if sp.fatal is Some {
                Step {
                    rest: sp.rest,
                    ops: Seq::empty(),
                    diags: Seq::empty(),
                    fatal: sp.fatal,
                    cont: true,
                }
            } else {
                let cond = spec_strip_outer_parens(sp.expr);
                let op = SpecOp::If(cond, seq![SpecOp::AttrEmpty(name)], Option::None);
                if toks_size(sp.rest) < toks_size(ts) {
                    let r = spec_attrs(in_attr, sp.rest);
                    Step {
                        rest: r.rest,
                        ops: seq![op] + r.ops,
                        diags: r.diags,
                        fatal: r.fatal,
                        cont: true,
                    }
                } else {
                    Step {
                        rest: sp.rest,
                        ops: seq![op],
                        diags: Seq::empty(),
                        fatal: Option::None,
                        cont: true,
                    }
                }
            }
        } else {
            proof {
                lemma_toks_size_skip_smaller(ts, 2);
            }
            let r = spec_attrs(in_attr, ts.skip(2));
            Step {
                rest: r.rest,
                ops: seq![SpecOp::AttrEmpty(name)] + r.ops,
                diags: r.diags,
                fatal: r.fatal,
                cont: true,
            }
        }
    } else {
        Step {
            rest: ts,
            ops: Seq::empty(),
            diags: Seq::empty(),
            fatal: Option::None,
            cont: true,
        }
    }
}

/// A whole template: the markup-unit loop over all of `ts`, outside any
/// attribute-value context.
pub open spec fn spec_parse(ts: Seq<SpecToken>) -> Step {
    spec_markups(false, ts)
}

/// Whether a token is the identifier `if`.
fn tok_is_if(t: &Token) -> (b: bool)
    ensures
        b == is_kw(t@, kw_if()),
{
    match t {
        Token::Ident(s) => {
            let b = s.len() == 2 && *s.get(0).unwrap() == 'i' && *s.get(1).unwrap() == 'f';
            proof {
                if b {
                    assert(s@ =~= kw_if());
                }
            }
            b
        },
        _ => false,
    }
}

/// Whether a token is the identifier `else`.
fn tok_is_else(t: &Token) -> (b: bool)
    ensures
        b == is_kw(t@, kw_else()),
{
    match t {
        Token::Ident(s) => {
            let b = s.len() == 4 && *s.get(0).unwrap() == 'e' && *s.get(1).unwrap() == 'l'
                && *s.get(2).unwrap() == 's' && *s.get(3).unwrap() == 'e';
            proof {
                if b {
                    assert(s@ =~= kw_else());
                }
            }
            b
        },
        _ => false,
    }
}

/// Parser state: the attribute-context flag, a cursor into the token view,
/// and the operations and diagnostics accumulated so far.
pub struct Parser<'a> {
    /// Whether the parser stands in attribute-value position.
    pub in_attr: bool,
    /// The tokens being parsed.
    pub input: &'a Vec<Token>,
    /// How many of `input`'s tokens have been consumed.
    pub pos: usize,
    /// The accumulator: operations recorded so far, in emission order.
    pub ops: Vec<Op>,
    /// The diagnostics reported so far.
    pub diags: Vec<Diag>,
}

impl<'a> Parser<'a> {
    /// The whole input, as mathematical tokens.
    pub open spec fn toks(self) -> Seq<SpecToken> {
        toks_view(self.input@)
    }

    /// The unconsumed suffix of the input.
    pub open spec fn rest(self) -> Seq<SpecToken> {
        self.toks().skip(self.pos as int)
    }

    /// The cursor stays within the input.
    pub open spec fn wf(self) -> bool {
        self.pos <= self.input@.len()
    }

    /// The operations recorded so far, as mathematical operations.
    pub open spec fn emitted(self) -> Seq<SpecOp> {
        ops_view(self.ops@)
    }

    /// How a parsing method's outcome relates to the step its grammar
    /// function describes: the cursor moves forward to leave exactly the
    /// step's rest, and the step's operations and diagnostics are appended.
    pub open spec fn evolves_to(self, post: Parser<'a>, s: Step) -> bool {
        &&& post.wf()
        &&& post.in_attr == self.in_attr
        &&& post.input == self.input
        &&& self.pos <= post.pos
        &&& post.rest() == s.rest
        &&& post.emitted() == self.emitted() + s.ops
        &&& post.diags@ == self.diags@ + s.diags
    }

    /// Basic facts relating the cursor view to the input.
    proof fn facts(self)
        requires
            self.wf(),
        ensures
            self.toks().len() == self.input@.len(),
            forall|i: int|
                0 <= i < self.input@.len() ==> self.toks()[i] == tok_view(self.input@[i]),
            self.rest().len() == self.input@.len() - self.pos,
            forall|k: int|
                0 <= k < self.input@.len() - self.pos ==> self.rest()[k] == tok_view(
                    self.input@[self.pos + k],
                ),
    {
        lemma_toks_view(self.input@);
    }

    /// Consume `n` tokens.
    fn shift(&mut self, n: usize)
        requires
            old(self).wf(),
            old(self).pos + n <= old(self).input@.len(),
        ensures
            final(self).wf(),
            final(self).in_attr == old(self).in_attr,
            final(self).input == old(self).input,
            final(self).pos == old(self).pos + n,
            final(self).ops == old(self).ops,
            final(self).diags == old(self).diags,
            final(self).rest() == old(self).rest().skip(n as int),
    {
        let len = self.input.len();
        self.pos = self.pos + n;
        proof {
            lemma_toks_view(self.input@);
            lemma_skip_skip(self.toks(), old(self).pos as int, n as int);
        }
    }

    /// Convert one literal token: its canonical text is appended escaped,
    /// and binary data is reported instead.
    fn literal(&mut self, lit: &Lit, minus: bool)
        requires
            old(self).wf(),
        ensures
            final(self).wf(),
            final(self).in_attr == old(self).in_attr,
            final(self).input == old(self).input,
            final(self).pos == old(self).pos,
            match lit_text(lit@, minus) {
                Option::Some(txt) => {
                    &&& final(self).emitted() == old(self).emitted() + seq![
                        SpecOp::AppendText(txt, Escape::Escape),
                    ]
                    &&& final(self).diags@ == old(self).diags@
                },
                Option::None => {
                    &&& final(self).emitted() == old(self).emitted()
                    &&& final(self).diags@ == old(self).diags@ + seq![Diag::CannotSpliceBinary]
                },
            },
    {
        match lit_to_string(lit, minus) {
            Option::Some(v) => {
                let op = Op::AppendText(v, Escape::Escape);
                proof {
                    lemma_ops_view_push(self.ops@, op);
                    assert(self.emitted().push(op_view(op)) =~= self.emitted() + seq![
                        op_view(op),
                    ]);
                }
                self.ops.push(op);
            },
            Option::None => {
                self.diags.push(Diag::CannotSpliceBinary);
                proof {
                    assert(self.diags@ =~= old(self).diags@ + seq![Diag::CannotSpliceBinary]);
                }
            },
        }
    }

    /// Capture one splice expression: one token unconditionally, then
    /// member-access pairs `. name` and non-brace groups, greedily.
    fn splice(&mut self) -> (r: Result<Vec<Token>, Fatal>)
        requires
            old(self).wf(),
        ensures
            final(self).wf(),
            final(self).in_attr == old(self).in_attr,
            final(self).input == old(self).input,
            final(self).ops == old(self).ops,
            final(self).diags == old(self).diags,
            old(self).pos <= final(self).pos,
            ({
                let sp = spec_splice(old(self).rest());
                &&& final(self).rest() == sp.rest
                &&& match r {
                    Result::Ok(v) => sp.fatal is None && toks_view(v@) == sp.expr,
                    Result::Err(f) => sp.fatal == Option::Some(f),
                }
            }),
    {
        proof {
            old(self).facts();
        }
        let inp = self.input;
        let len = inp.len();
        if self.pos >= len {
            return Result::Err(Fatal::ExpectedSpliceExpr);
        }
        let mut tts: Vec<Token> = Vec::new();
        let first = copy_tok(&inp[self.pos]);
        proof {
            assert(toks_view(tts@) =~= Seq::<SpecToken>::empty());
            lemma_toks_view_push(tts@, first);
        }
        tts.push(first);
        self.shift(1);
        proof {
            assert(toks_view(tts@) =~= seq![old(self).rest()[0]]);
        }
        let ghost sp = spec_splice(old(self).rest());
        loop
            invariant
                self.wf(),
                self.in_attr == old(self).in_attr,
                self.input == old(self).input,
                inp == self.input,
                self.ops == old(self).ops,
                self.diags == old(self).diags,
                old(self).pos < self.pos,
                sp == spec_splice(old(self).rest()),
                sp.fatal is None,
                sp.expr == toks_view(tts@) + spec_splice_ext(self.rest()).expr,
                sp.rest == spec_splice_ext(self.rest()).rest,
            ensures
                self.wf(),
                self.in_attr == old(self).in_attr,
                self.input == old(self).input,
                self.ops == old(self).ops,
                self.diags == old(self).diags,
                old(self).pos < self.pos,
                sp.expr == toks_view(tts@),
                sp.rest == self.rest(),
            decreases self.input@.len() - self.pos,
        {
            proof {
                self.facts();
            }
            let len2 = inp.len();
            let rem = len2 - self.pos;
            let two = rem >= 2 && (match &inp[self.pos] {
                Token::Dot => true,
                _ => false,
            }) && (match &inp[self.pos + 1] {
                Token::Ident(_) => true,
                _ => false,
            });
            if two {
                let a = copy_tok(&inp[self.pos]);
                let b = copy_tok(&inp[self.pos + 1]);
                proof {
                    lemma_toks_view_push(tts@, a);
                    lemma_toks_view_push(tts@.push(a), b);
                    assert(toks_view(tts@.push(a).push(b)) =~= toks_view(tts@) + seq![
                        self.rest()[0],
                        self.rest()[1],
                    ]);
                    assert(toks_view(tts@) + (seq![self.rest()[0], self.rest()[1]]
                        + spec_splice_ext(self.rest().skip(2)).expr) =~= (toks_view(tts@) + seq![
                        self.rest()[0],
                        self.rest()[1],
                    ]) + spec_splice_ext(self.rest().skip(2)).expr);
                }
                tts.push(a);
                tts.push(b);
                self.shift(2);
            } else {
                let one = rem >= 1 && (match &inp[self.pos] {
                    Token::Group(d, _) => match d {
                        Delim::Brace => false,
                        _ => true,
                    },
                    _ => false,
                });
                if one {
                    let a = copy_tok(&inp[self.pos]);
                    proof {
                        lemma_toks_view_push(tts@, a);
                        assert(toks_view(tts@.push(a)) =~= toks_view(tts@) + seq![
                            self.rest()[0],
                        ]);
                        assert(toks_view(tts@) + (seq![self.rest()[0]] + spec_splice_ext(
                            self.rest().skip(1),
                        ).expr) =~= (toks_view(tts@) + seq![self.rest()[0]]) + spec_splice_ext(
                            self.rest().skip(1),
                        ).expr);
                    }
                    tts.push(a);
                    self.shift(1);
                } else {
                    proof {
                        assert(spec_splice_ext(self.rest()).expr =~= Seq::<SpecToken>::empty());
                        assert(toks_view(tts@) + Seq::<SpecToken>::empty() =~= toks_view(tts@));
                    }
                    break;
                }
            }
        }
        Result::Ok(tts)
    }

    /// Parse a nested block: its tokens form an independent markup sequence
    /// whose operations are captured in isolation (a fork) and returned,
    /// while its diagnostics are reported to this parser.
    fn block(&mut self, tts: &Vec<Token>) -> (r: Result<Vec<Op>, Fatal>)
        requires
            old(self).wf(),
        ensures
            final(self).wf(),
            final(self).in_attr == old(self).in_attr,
            final(self).input == old(self).input,
            final(self).pos == old(self).pos,
            final(self).ops == old(self).ops,
            ({
                let b = spec_markups(old(self).in_attr, toks_view(tts@));
                &&& final(self).diags@ == old(self).diags@ + b.diags
                &&& match r {
                    Result::Ok(v) => b.fatal is None && ops_view(v@) == b.ops,
                    Result::Err(f) => b.fatal == Option::Some(f),
                }
            }),
        decreases toks_size(toks_view(tts@)), 4nat,
    {
        let ghost b = spec_markups(self.in_attr, toks_view(tts@));
        let mut sub = Parser {
            in_attr: self.in_attr,
            input: tts,
            pos: 0,
            ops: Vec::new(),
            diags: Vec::new(),
        };
        proof {
            lemma_toks_size_skip_zero(toks_view(tts@));
            assert(sub.rest() =~= toks_view(tts@));
            assert(sub.emitted() =~= Seq::<SpecOp>::empty());
        }
        let r = sub.markups();
        proof {
            assert(sub.emitted() =~= b.ops);
            assert(sub.diags@ =~= b.diags);
        }
        self.diags.append(&mut sub.diags);
        match r {
            Result::Err(f) => Result::Err(f),
            Result::Ok(()) => Result::Ok(sub.ops),
        }
    }

    /// Parse the conditional construct, entered after `$ if` was consumed:
    /// the condition runs to the first braced body; an optional `$ else` is
    /// followed by another conditional, parsed against a forked accumulator
    /// so its operations are captured as the else branch, or by a terminal
    /// braced body. Exactly one conditional operation is emitted.
    #[verifier::rlimit(100)]
    fn if_expr(&mut self) -> (r: Result<(), Fatal>)
        requires
            old(self).wf(),
        ensures
            ({
                let s = spec_if_expr(old(self).in_attr, old(self).rest());
                &&& old(self).evolves_to(*final(self), s)
                &&& match r {
                    Result::Ok(()) => s.fatal is None,
                    Result::Err(f) => s.fatal == Option::Some(f),
                }
            }),
        decreases toks_size(self.rest()), 0nat,
    {
        proof {
            old(self).facts();
        }
        let ghost ts = old(self).rest();
        let ghost s = spec_if_expr(old(self).in_attr, ts);
        let inp = self.input;
        let len = inp.len();
        let pos0 = self.pos;
        let mut cond_tts: Vec<Token> = Vec::new();
        proof {
            assert(toks_view(cond_tts@) =~= ts.subrange(0, 0));
        }
        loop
            invariant
                self.wf(),
                inp == self.input,
                self.input == old(self).input,
                self.in_attr == old(self).in_attr,
                self.ops == old(self).ops,
                self.diags == old(self).diags,
                pos0 == old(self).pos,
                pos0 <= self.pos,
                len == inp@.len(),
                ts == old(self).rest(),
                ts.len() == len - pos0,
                s == spec_if_expr(old(self).in_attr, ts),
                toks_view(cond_tts@) == ts.subrange(0, self.pos - pos0),
                forall|j: int| 0 <= j < self.pos - pos0 ==> !is_brace_group(ts[j]),
            ensures
                self.wf(),
                inp == self.input,
                self.input == old(self).input,
                self.in_attr == old(self).in_attr,
                self.ops == old(self).ops,
                self.diags == old(self).diags,
                pos0 == old(self).pos,
                pos0 <= self.pos < len,
                first_brace(ts) == Option::Some(self.pos - pos0 as int),
                toks_view(cond_tts@) == ts.subrange(0, self.pos - pos0),
                is_brace_group(ts[self.pos - pos0]),
            decreases len - self.pos,
        {
            proof {
                self.facts();
            }
            if self.pos >= len {
                proof {
                    lemma_first_brace(ts);
                    assert(s.fatal == Option::Some(Fatal::ExpectedIfBody));
                    assert(self.rest() =~= ts.skip(ts.len() as int));
                    assert(self.emitted() =~= old(self).emitted() + s.ops);
                    assert(self.diags@ =~= old(self).diags@ + s.diags);
                }
                return Result::Err(Fatal::ExpectedIfBody);
            }
            let found = match &inp[self.pos] {
                Token::Group(d, _) => match d {
                    Delim::Brace => true,
                    _ => false,
                },
                _ => false,
            };
            if found {
                proof {
                    assert(self.rest()[0] == tok_view(inp@[self.pos as int]));
                    assert(self.rest()[0] == ts[self.pos - pos0]);
                    assert(is_brace_group(ts[self.pos - pos0]));
                    lemma_first_brace(ts);
                }
                break;
            }
            let c = copy_tok(&inp[self.pos]);
            proof {
                lemma_toks_view_push(cond_tts@, c);
                assert(toks_view(cond_tts@).push(tok_view(c)) =~= ts.subrange(
                    0,
                    self.pos - pos0 + 1,
                ));
            }
            cond_tts.push(c);
            self.shift(1);
        }
        let ghost i = self.pos - pos0 as int;
        proof {
            lemma_group_inner_smaller(ts, i);
            lemma_skip_skip(self.toks(), pos0 as int, i + 1);
        }
        let if_body = match &inp[self.pos] {
            Token::Group(_, btts) => {
                self.shift(1);
                match self.block(btts) {
                    Result::Ok(v) => v,
                    Result::Err(f) => {
                        proof {
                            assert(self.emitted() =~= old(self).emitted() + s.ops);
                        }
                        return Result::Err(f);
                    },
                }
            },
            _ => {
                proof {
                    assert(false);
                }
                unreached()
            },
        };
        let ghost b = spec_markups(old(self).in_attr, group_inner(ts[i]));
        let ghost rest1 = ts.skip(i + 1);
        proof {
            assert(self.rest() == rest1);
            self.facts();
        }
        let rem = len - self.pos;
        let has_else = rem >= 2 && (match &inp[self.pos] {
            Token::Dollar => true,
            _ => false,
        }) && tok_is_else(&inp[self.pos + 1]);
        if has_else {
            proof {
                lemma_skip_skip(self.toks(), self.pos as int, 2);
                lemma_skip_skip(ts, i + 1, 2);
            }
            self.shift(2);
            let ghost rest2 = rest1.skip(2);
            proof {
                assert(self.rest() == rest2);
                self.facts();
            }
            let rem2 = len - self.pos;
            if rem2 >= 1 && tok_is_if(&inp[self.pos]) {
                proof {
                    lemma_skip_skip(ts, i + 3, 1);
                    lemma_toks_size_skip_smaller(ts, i + 4);
                }
                self.shift(1);
                let mut sub = Parser {
                    in_attr: self.in_attr,
                    input: inp,
                    pos: self.pos,
                    ops: Vec::new(),
                    diags: Vec::new(),
                };
                proof {
                    assert(sub.rest() == rest2.skip(1));
                    assert(sub.emitted() =~= Seq::<SpecOp>::empty());
                }
                let ghost e = spec_if_expr(old(self).in_attr, rest2.skip(1));
                let r = sub.if_expr();
                self.pos = sub.pos;
                self.diags.append(&mut sub.diags);
                proof {
                    assert(sub.emitted() =~= e.ops);
                    assert(self.diags@ =~= old(self).diags@ + (b.diags + e.diags));
                }
                match r {
                    Result::Err(f) => {
                        proof {
                            assert(self.emitted() =~= old(self).emitted() + s.ops);
                        }
                        Result::Err(f)
                    },
                    Result::Ok(()) => {
                        let op = Op::If(cond_tts, if_body, Option::Some(sub.ops));
                        proof {
                            lemma_ops_view_push(self.ops@, op);
                            assert(op_view(op) == SpecOp::If(
                                ts.subrange(0, i),
                                b.ops,
                                Option::Some(e.ops),
                            ));
                            assert(self.emitted().push(op_view(op)) =~= old(self).emitted() + seq![
                                op_view(op),
                            ]);
                        }
                        self.ops.push(op);
                        Result::Ok(())
                    },
                }
            } else {
                let is_group = rem2 >= 1 && (match &inp[self.pos] {
                    Token::Group(d, _) => match d {
                        Delim::Brace => true,
                        _ => false,
                    },
                    _ => false,
                });
                if is_group {
                    proof {
                        lemma_group_inner_smaller(rest2, 0);
                        lemma_toks_size_skip_smaller(ts, i + 3);
                        lemma_skip_skip(ts, i + 3, 1);
                    }
                    match &inp[self.pos] {
                        Token::Group(_, etts) => {
                            self.shift(1);
                            let ghost eb = spec_markups(
                                old(self).in_attr,
                                group_inner(rest2[0]),
                            );
                            match self.block(etts) {
                                Result::Err(f) => {
                                    proof {
                                        assert(self.diags@ =~= old(self).diags@ + (b.diags
                                            + eb.diags));
                                        assert(self.emitted() =~= old(self).emitted() + s.ops);
                                    }
                                    Result::Err(f)
                                },
                                Result::Ok(v2) => {
                                    let op = Op::If(cond_tts, if_body, Option::Some(v2));
                                    proof {
                                        lemma_ops_view_push(self.ops@, op);
                                        assert(op_view(op) == SpecOp::If(
                                            ts.subrange(0, i),
                                            b.ops,
                                            Option::Some(eb.ops),
                                        ));
                                        assert(self.diags@ =~= old(self).diags@ + (b.diags
                                            + eb.diags));
                                        assert(self.emitted().push(op_view(op)) =~= old(
                                            self,
                                        ).emitted() + seq![op_view(op)]);
                                    }
                                    self.ops.push(op);
                                    Result::Ok(())
                                },
                            }
                        },
                        _ => {
                            proof {
                                assert(false);
                            }
                            unreached()
                        },
                    }
                } else {
                    proof {
                        assert(self.emitted() =~= old(self).emitted() + s.ops);
                    }
                    Result::Err(Fatal::InvalidElseSyntax)
                }
            }
        } else {
            let op = Op::If(cond_tts, if_body, Option::None);
            proof {
                lemma_ops_view_push(self.ops@, op);
                assert(op_view(op) == SpecOp::If(ts.subrange(0, i), b.ops, Option::None));
                assert(self.emitted().push(op_view(op)) =~= old(self).emitted() + seq![
                    op_view(op),
                ]);
            }
            self.ops.push(op);
            Result::Ok(())
        }
    }

    /// Parse an element, entered after its tag name was consumed: forbidden
    /// in attribute-value position; otherwise the opening tag with its
    /// attributes, then a `/` for a self-closing element or exactly one
    /// markup unit as the body followed by the closing tag.
    #[verifier::rlimit(100)]
    fn element(&mut self, name: &Vec<char>) -> (r: Result<(), Fatal>)
        requires
            old(self).wf(),
        ensures
            ({
                let s = spec_element(old(self).in_attr, name@, old(self).rest());
                &&& old(self).evolves_to(*final(self), s)
                &&& match r {
                    Result::Ok(()) => s.fatal is None,
                    Result::Err(f) => s.fatal == Option::Some(f),
                }
            }),
        decreases toks_size(self.rest()), 2nat,
    {
        proof {
            old(self).facts();
        }
        let ghost ts = old(self).rest();
        let ghost s = spec_element(old(self).in_attr, name@, ts);
        if self.in_attr {
            self.diags.push(Diag::UnexpectedElement);
            proof {
                assert(self.diags@ =~= old(self).diags@ + seq![Diag::UnexpectedElement]);
                assert(self.emitted() =~= old(self).emitted() + s.ops);
            }
            return Result::Ok(());
        }
        let op0 = Op::OpenTagStart(copy_chars(name));
        proof {
            lemma_ops_view_push(self.ops@, op0);
            assert(self.emitted().push(op_view(op0)) =~= old(self).emitted() + seq![
                op_view(op0),
            ]);
        }
        self.ops.push(op0);
        let ghost a = spec_attrs(old(self).in_attr, ts);
        let r = self.attrs();
        if let Result::Err(f) = r {
            proof {
                assert(self.emitted() =~= old(self).emitted() + (seq![
                    SpecOp::OpenTagStart(name@),
                ] + a.ops));
            }
            return Result::Err(f);
        }
        let op1 = Op::OpenTagEnd;
        proof {
            lemma_ops_view_push(self.ops@, op1);
            assert(self.emitted().push(op_view(op1)) =~= self.emitted() + seq![op_view(op1)]);
            assert((old(self).emitted() + (seq![SpecOp::OpenTagStart(name@)] + a.ops)) + seq![
                SpecOp::OpenTagEnd,
            ] =~= old(self).emitted() + (seq![SpecOp::OpenTagStart(name@)] + a.ops + seq![
                SpecOp::OpenTagEnd,
            ]));
        }
        self.ops.push(op1);
        proof {
            self.facts();
        }
        let inp = self.input;
        let len = inp.len();
        let slash = self.pos < len && (match &inp[self.pos] {
            Token::Slash => true,
            _ => false,
        });
        if slash {
            self.shift(1);
            proof {
                assert(self.emitted() =~= old(self).emitted() + (seq![
                    SpecOp::OpenTagStart(name@),
                ] + a.ops + seq![SpecOp::OpenTagEnd]));
            }
            return Result::Ok(());
        }
        proof {
            lemma_toks_size_skip_le(self.toks(), old(self).pos as int, self.pos as int);
        }
        let ghost m = spec_markup(old(self).in_attr, a.rest);
        let mr = self.markup();
        if let Result::Err(f) = mr {
            proof {
                assert(self.emitted() =~= old(self).emitted() + ((seq![
                    SpecOp::OpenTagStart(name@),
                ] + a.ops + seq![SpecOp::OpenTagEnd]) + m.ops));
                assert(self.diags@ =~= old(self).diags@ + (a.diags + m.diags));
            }
            return Result::Err(f);
        }
        let op2 = Op::CloseTag(copy_chars(name));
        proof {
            lemma_ops_view_push(self.ops@, op2);
            assert(self.emitted().push(op_view(op2)) =~= self.emitted() + seq![op_view(op2)]);
            assert(self.emitted() + seq![SpecOp::CloseTag(name@)] =~= old(self).emitted() + ((
            seq![SpecOp::OpenTagStart(name@)] + a.ops + seq![SpecOp::OpenTagEnd]) + m.ops + seq![
                SpecOp::CloseTag(name@),
            ]));
            assert(self.diags@ =~= old(self).diags@ + (a.diags + m.diags));
        }
        self.ops.push(op2);
        Result::Ok(())
    }

    /// Parse the attribute list: `name = value` with the value in
    /// attribute context, and `name ?` presence-only attributes, optionally
    /// guarded by a captured boolean expression after `=`.
    #[verifier::rlimit(100)]
    fn attrs(&mut self) -> (r: Result<(), Fatal>)
        requires
            old(self).wf(),
        ensures
            ({
                let s = spec_attrs(old(self).in_attr, old(self).rest());
                &&& old(self).evolves_to(*final(self), s)
                &&& match r {
                    Result::Ok(()) => s.fatal is None,
                    Result::Err(f) => s.fatal == Option::Some(f),
                }
            }),
        decreases toks_size(self.rest()), 1nat,
    {
        proof {
            old(self).facts();
        }
        let ghost ts = old(self).rest();
        let ghost s = spec_attrs(old(self).in_attr, ts);
        let inp = self.input;
        let len = inp.len();
        let rem = len - self.pos;
        let named = rem >= 2 && (match &inp[self.pos] {
            Token::Ident(_) => true,
            _ => false,
        }) && (match &inp[self.pos + 1] {
            Token::Equals => true,
            _ => false,
        });
        if named {
            let name = match &inp[self.pos] {
                Token::Ident(nm) => copy_chars(nm),
                _ => {
                    proof {
                        assert(false);
                    }
                    unreached()
                },
            };
            let op0 = Op::AttrStart(name);
            proof {
                lemma_ops_view_push(self.ops@, op0);
                assert(self.emitted().push(op_view(op0)) =~= old(self).emitted() + seq![
                    op_view(op0),
                ]);
                lemma_toks_size_skip_smaller(ts, 2);
            }
            self.ops.push(op0);
            self.shift(2);
            let saved = self.in_attr;
            self.in_attr = true;
            let ghost m = spec_markup(true, ts.skip(2));
            let mr = self.markup();
            self.in_attr = saved;
            if let Result::Err(f) = mr {
                proof {
                    assert(self.emitted() =~= old(self).emitted() + (seq![
                        SpecOp::AttrStart(ident_text(ts[0])),
                    ] + m.ops));
                }
                return Result::Err(f);
            }
            let op1 = Op::AttrEnd;
            proof {
                lemma_ops_view_push(self.ops@, op1);
                assert(self.emitted().push(op_view(op1)) =~= self.emitted() + seq![
                    op_view(op1),
                ]);
            }
            self.ops.push(op1);
            proof {
                lemma_toks_size_skip_le(self.toks(), old(self).pos as int, self.pos as int);
                lemma_toks_size_skip_smaller(ts, 2);
            }
            let ghost rr = spec_attrs(old(self).in_attr, m.rest);
            let r2 = self.attrs();
            proof {
                assert(self.emitted() =~= old(self).emitted() + (seq![
                    SpecOp::AttrStart(ident_text(ts[0])),
                ] + m.ops + seq![SpecOp::AttrEnd] + rr.ops));
                assert(self.diags@ =~= old(self).diags@ + (m.diags + rr.diags));
            }
            return r2;
        }
        let empty_attr = rem >= 2 && (match &inp[self.pos] {
            Token::Ident(_) => true,
            _ => false,
        }) && (match &inp[self.pos + 1] {
            Token::Question => true,
            _ => false,
        });
        if empty_attr {
            let name = match &inp[self.pos] {
                Token::Ident(nm) => copy_chars(nm),
                _ => {
                    proof {
                        assert(false);
                    }
                    unreached()
                },
            };
            let toggled = rem >= 3 && (match &inp[self.pos + 2] {
                Token::Equals => true,
                _ => false,
            });
            if toggled {
                proof {
                    lemma_toks_size_skip_smaller(ts, 3);
                }
                self.shift(3);
                let ghost sp = spec_splice(ts.skip(3));
                let cond_raw = match self.splice() {
                    Result::Ok(v) => v,
                    Result::Err(f) => {
                        proof {
                            assert(self.emitted() =~= old(self).emitted());
                            assert(self.diags@ =~= old(self).diags@);
                        }
                        return Result::Err(f);
                    },
                };
                let cond = strip_outer_parens(cond_raw);
                let body = vec![Op::AttrEmpty(name)];
                proof {
                    lemma_ops_view(body@);
                    assert(ops_view(body@) =~= seq![SpecOp::AttrEmpty(ident_text(ts[0]))]);
                }
                let op = Op::If(cond, body, Option::None);
                proof {
                    lemma_ops_view_push(self.ops@, op);
                    assert(op_view(op) == SpecOp::If(
                        spec_strip_outer_parens(sp.expr),
                        seq![SpecOp::AttrEmpty(ident_text(ts[0]))],
                        Option::None,
                    ));
                    assert(self.emitted().push(op_view(op)) =~= old(self).emitted() + seq![
                        op_view(op),
                    ]);
                    lemma_toks_size_skip_le(self.toks(), old(self).pos as int, self.pos as int);
                }
                self.ops.push(op);
                let ghost rr = spec_attrs(old(self).in_attr, sp.rest);
                let r2 = self.attrs();
                proof {
                    assert(self.emitted() =~= old(self).emitted() + (seq![op_view(op)]
                        + rr.ops));
                    assert(self.diags@ =~= old(self).diags@ + rr.diags);
                }
                return r2;
            } else {
                let op = Op::AttrEmpty(name);
                proof {
                    lemma_ops_view_push(self.ops@, op);
                    assert(self.emitted().push(op_view(op)) =~= old(self).emitted() + seq![
                        op_view(op),
                    ]);
                    lemma_toks_size_skip_smaller(ts, 2);
                }
                self.ops.push(op);
                self.shift(2);
                let ghost rr = spec_attrs(old(self).in_attr, ts.skip(2));
                let r2 = self.attrs();
                proof {
                    assert(self.emitted() =~= old(self).emitted() + (seq![op_view(op)]
                        + rr.ops));
                    assert(self.diags@ =~= old(self).diags@ + rr.diags);
                }
                return r2;
            }
        }
        proof {
            assert(self.emitted() =~= old(self).emitted() + s.ops);
            assert(self.diags@ =~= old(self).diags@ + s.diags);
        }
        Result::Ok(())
    }

    /// Parse one markup unit, dispatching on the next one or two tokens in
    /// precedence order. The result says whether the enclosing loop may go
    /// on: `false` reports that a diagnostic stopped this unit.
    #[verifier::rlimit(100)]
    fn markup(&mut self) -> (r: Result<bool, Fatal>)
        requires
            old(self).wf(),
        ensures
            ({
                let s = spec_markup(old(self).in_attr, old(self).rest());
                &&& old(self).evolves_to(*final(self), s)
                &&& match r {
                    Result::Ok(b) => s.fatal is None && b == s.cont,
                    Result::Err(f) => s.fatal == Option::Some(f),
                }
            }),
            r == Result::<bool, Fatal>::Ok(true) ==> old(self).pos < final(self).pos,
        decreases toks_size(self.rest()), 0nat,
    {
        proof {
            old(self).facts();
        }
        let ghost ts = old(self).rest();
        let ghost s = spec_markup(old(self).in_attr, ts);
        let inp = self.input;
        let len = inp.len();
        if self.pos >= len {
            self.diags.push(Diag::UnexpectedEndOfBlock);
            proof {
                assert(self.diags@ =~= old(self).diags@ + seq![Diag::UnexpectedEndOfBlock]);
                assert(self.emitted() =~= old(self).emitted() + s.ops);
            }
            return Result::Ok(false);
        }
        let rem = len - self.pos;
        let minus_lit = rem >= 2 && (match &inp[self.pos] {
            Token::Minus => true,
            _ => false,
        }) && (match &inp[self.pos + 1] {
            Token::Literal(_) => true,
            _ => false,
        });
        if minus_lit {
            let lit = match &inp[self.pos + 1] {
                Token::Literal(l) => l,
                _ => {
                    proof {
                        assert(false);
                    }
                    unreached()
                },
            };
            self.shift(2);
            self.literal(lit, true);
            return Result::Ok(true);
        }
        let lit_alone = match &inp[self.pos] {
            Token::Literal(_) => true,
            _ => false,
        };
        if lit_alone {
            let lit = match &inp[self.pos] {
                Token::Literal(l) => l,
                _ => {
                    proof {
                        assert(false);
                    }
                    unreached()
                },
            };
            self.shift(1);
            self.literal(lit, false);
            return Result::Ok(true);
        }
        let dollar = match &inp[self.pos] {
            Token::Dollar => true,
            _ => false,
        };
        if dollar && rem >= 2 && tok_is_if(&inp[self.pos + 1]) {
            proof {
                lemma_toks_size_skip_smaller(ts, 2);
            }
            self.shift(2);
            let r = self.if_expr();
            return match r {
                Result::Ok(()) => Result::Ok(true),
                Result::Err(f) => Result::Err(f),
            };
        }
        let dollar2 = dollar && rem >= 2 && (match &inp[self.pos + 1] {
            Token::Dollar => true,
            _ => false,
        });
        if dollar2 {
            proof {
                lemma_toks_size_skip_smaller(ts, 2);
            }
            self.shift(2);
            return match self.splice() {
                Result::Err(f) => Result::Err(f),
                Result::Ok(v) => {
                    let op = Op::AppendExpr(v, Escape::PassThru);
                    proof {
                        lemma_ops_view_push(self.ops@, op);
                        assert(self.emitted().push(op_view(op)) =~= old(self).emitted() + seq![
                            op_view(op),
                        ]);
                    }
                    self.ops.push(op);
                    Result::Ok(true)
                },
            };
        }
        if dollar {
            proof {
                lemma_toks_size_skip_smaller(ts, 1);
            }
            self.shift(1);
            return match self.splice() {
                Result::Err(f) => Result::Err(f),
                Result::Ok(v) => {
                    let op = Op::AppendExpr(v, Escape::Escape);
                    proof {
                        lemma_ops_view_push(self.ops@, op);
                        assert(self.emitted().push(op_view(op)) =~= old(self).emitted() + seq![
                            op_view(op),
                        ]);
                    }
                    self.ops.push(op);
                    Result::Ok(true)
                },
            };
        }
        let ident = match &inp[self.pos] {
            Token::Ident(_) => true,
            _ => false,
        };
        if ident {
            let nm = match &inp[self.pos] {
                Token::Ident(x) => x,
                _ => {
                    proof {
                        assert(false);
                    }
                    unreached()
                },
            };
            proof {
                lemma_toks_size_skip_smaller(ts, 1);
            }
            self.shift(1);
            let r = self.element(nm);
            return match r {
                Result::Ok(()) => Result::Ok(true),
                Result::Err(f) => Result::Err(f),
            };
        }
        let braced = match &inp[self.pos] {
            Token::Group(d, _) => match d {
                Delim::Brace => true,
                _ => false,
            },
            _ => false,
        };
        if braced {
            let btts = match &inp[self.pos] {
                Token::Group(_, b) => b,
                _ => {
                    proof {
                        assert(false);
                    }
                    unreached()
                },
            };
            proof {
                lemma_group_inner_smaller(ts, 0);
            }
            self.shift(1);
            let ghost b = spec_markups(old(self).in_attr, group_inner(ts[0]));
            return match self.block(btts) {
                Result::Err(f) => Result::Err(f),
                Result::Ok(v) => {
                    let op = Op::Block(v);
                    proof {
                        lemma_ops_view_push(self.ops@, op);
                        assert(op_view(op) == SpecOp::Block(b.ops));
                        assert(self.emitted().push(op_view(op)) =~= old(self).emitted() + seq![
                            op_view(op),
                        ]);
                    }
                    self.ops.push(op);
                    Result::Ok(true)
                },
            };
        }
        self.diags.push(Diag::InvalidSyntax);
        proof {
            assert(self.diags@ =~= old(self).diags@ + seq![Diag::InvalidSyntax]);
            assert(self.emitted() =~= old(self).emitted() + s.ops);
        }
        Result::Ok(false)
    }

    /// The markup-unit loop: parse units until the tokens run out, skipping
    /// stray `;` separators and stopping early when a unit reports failure.
    #[verifier::rlimit(100)]
    fn markups(&mut self) -> (r: Result<(), Fatal>)
        requires
            old(self).wf(),
        ensures
            ({
                let s = spec_markups(old(self).in_attr, old(self).rest());
                &&& old(self).evolves_to(*final(self), s)
                &&& match r {
                    Result::Ok(()) => s.fatal is None,
                    Result::Err(f) => s.fatal == Option::Some(f),
                }
            }),
        decreases toks_size(self.rest()), 3nat,
    {
        proof {
            old(self).facts();
        }
        let ghost ts = old(self).rest();
        let ghost s = spec_markups(old(self).in_attr, ts);
        let inp = self.input;
        let len = inp.len();
        if self.pos >= len {
            proof {
                assert(self.emitted() =~= old(self).emitted() + s.ops);
                assert(self.diags@ =~= old(self).diags@ + s.diags);
            }
            return Result::Ok(());
        }
        let semi = match &inp[self.pos] {
            Token::Semi => true,
            _ => false,
        };
        if semi {
            proof {
                lemma_toks_size_skip_smaller(ts, 1);
            }
            self.shift(1);
            return self.markups();
        }
        let ghost m = spec_markup(old(self).in_attr, ts);
        let r = self.markup();
        match r {
            Result::Err(f) => Result::Err(f),
            Result::Ok(false) => Result::Ok(()),
            Result::Ok(true) => {
                proof {
                    lemma_toks_size_skip_le(self.toks(), old(self).pos as int, self.pos as int);
                }
                let ghost rr = spec_markups(old(self).in_attr, m.rest);
                let r2 = self.markups();
                proof {
                    assert(self.emitted() =~= old(self).emitted() + (m.ops + rr.ops));
                    assert(self.diags@ =~= old(self).diags@ + (m.diags + rr.diags));
                }
                r2
            },
        }
    }
}

/// Strip one layer of enclosing parentheses from a captured expression
/// slice, if the slice is exactly one parenthesized group.
fn strip_outer_parens(e: Vec<Token>) -> (r: Vec<Token>)
    ensures
        toks_view(r@) == spec_strip_outer_parens(toks_view(e@)),
{
    proof {
        lemma_toks_view(e@);
    }
    let strip = e.len() == 1 && (match &e[0] {
        Token::Group(d, _) => match d {
            Delim::Paren => true,
            _ => false,
        },
        _ => false,
    });
    if strip {
        match &e[0] {
            Token::Group(_, inner) => copy_toks(inner),
            _ => {
                proof {
                    assert(false);
                }
                unreached()
            },
        }
    } else {
        e
    }
}

/// The outcome of a parse that ran to the end: the operations in emission
/// order, and the diagnostics reported along the way. A parse with
/// diagnostics has produced no usable unit; they are collected so the
/// caller can report them all.
#[derive(Debug)]
pub struct Parsed {
    /// The recorded output-construction operations.
    pub ops: Vec<Op>,
    /// The diagnostics, in the order reported.
    pub diags: Vec<Diag>,
}

/// A parse stopped by a fatal error, with the diagnostics reported before
/// the stop.
#[derive(Debug)]
pub struct ParseFailure {
    /// The fatal error.
    pub fatal: Fatal,
    /// The diagnostics reported before the fatal error.
    pub diags: Vec<Diag>,
}

/// Parse one whole template: the markup units of `input`, outside any
/// attribute-value context, producing the operation sequence a rendering
/// backend assembles into the final output.
pub fn parse(input: &Vec<Token>) -> (r: Result<Parsed, ParseFailure>)
    ensures
        ({
            let s = spec_parse(toks_view(input@));
            match r {
                Result::Ok(p) => {
                    &&& s.fatal is None
                    &&& ops_view(p.ops@) == s.ops
                    &&& p.diags@ == s.diags
                },
                Result::Err(e) => {
                    &&& s.fatal == Option::Some(e.fatal)
                    &&& e.diags@ == s.diags
                },
            }
        }),
{
    let mut p = Parser { in_attr: false, input, pos: 0, ops: Vec::new(), diags: Vec::new() };
    proof {
        assert(p.rest() =~= toks_view(input@));
        assert(p.emitted() =~= Seq::<SpecOp>::empty());
    }
    let r = p.markups();
    proof {
        assert(p.emitted() =~= spec_parse(toks_view(input@)).ops);
        assert(p.diags@ =~= spec_parse(toks_view(input@)).diags);
    }
    match r {
        Result::Ok(()) => Result::Ok(Parsed { ops: p.ops, diags: p.diags }),
        Result::Err(f) => Result::Err(ParseFailure { fatal: f, diags: p.diags }),
    }
}

} // verus!
