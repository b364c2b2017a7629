//! Proved properties of the grammar functions.
//!
//! These laws relate the parsing functions to one another: how much input a
//! step can consume, what a literal or an attribute emits, how a splice
//! slice sits in its input, and what shape an element's or a conditional
//! chain's emission takes.

use vstd::prelude::*;
use crate::tokens::{
    Delim, SpecToken, group_inner, ident_text, is_brace_group, is_kw, kw_else, kw_if,
    lemma_toks_size_skip_le, lemma_toks_size_skip_smaller, lemma_toks_size_skip_zero, lit_of,
    toks_size,
};
use crate::ops::{Diag, Escape, SpecOp};
use crate::text::lit_text;
use crate::parse::{
    first_brace, lemma_first_brace, spec_attrs, spec_element, spec_if_expr, spec_markup,
    spec_markups, spec_parse, spec_splice, spec_splice_ext, spec_strip_outer_parens,
};

verus! {

/// A splice continuation never grows the input: what it leaves is a suffix
/// no larger than what it was given.
pub proof fn lemma_splice_ext_bound(ts: Seq<SpecToken>)
    ensures
        toks_size(spec_splice_ext(ts).rest) <= toks_size(ts),
    decreases toks_size(ts), 0nat,
{
    if ts.len() >= 2 && ts[0] is Dot && ts[1] matches SpecToken::Ident(_) {
        lemma_toks_size_skip_smaller(ts, 2);
        lemma_splice_ext_bound(ts.skip(2));
    } else if ts.len() >= 1 && (ts[0] matches SpecToken::Group(d, _) && !(d is Brace)) {
        lemma_toks_size_skip_smaller(ts, 1);
        lemma_splice_ext_bound(ts.skip(1));
    }
}

/// A splice never grows the input, and a successful one consumes at least
/// one token.
pub proof fn lemma_splice_bound(ts: Seq<SpecToken>)
    ensures
        toks_size(spec_splice(ts).rest) <= toks_size(ts),
        spec_splice(ts).fatal is None ==> toks_size(spec_splice(ts).rest) < toks_size(ts),
{
    if ts.len() >= 1 {
        lemma_toks_size_skip_smaller(ts, 1);
        lemma_splice_ext_bound(ts.skip(1));
    }
}

/// The markup loop never grows the input.
pub proof fn lemma_markups_bound(in_attr: bool, ts: Seq<SpecToken>)
    ensures
        toks_size(spec_markups(in_attr, ts).rest) <= toks_size(ts),
    decreases toks_size(ts), 3nat,
{
    if ts.len() == 0 {
    } else if ts[0] is Semi {
        lemma_toks_size_skip_smaller(ts, 1);
        lemma_markups_bound(in_attr, ts.skip(1));
    } else {
        let m = spec_markup(in_attr, ts);
        lemma_markup_bound(in_attr, ts);
        if !(m.fatal is Some || !m.cont) && toks_size(m.rest) < toks_size(ts) {
            lemma_markups_bound(in_attr, m.rest);
        }
    }
}

/// One markup unit never grows the input, and consumes at least one token
/// whenever it reports that the loop may go on.
pub proof fn lemma_markup_bound(in_attr: bool, ts: Seq<SpecToken>)
    ensures
        toks_size(spec_markup(in_attr, ts).rest) <= toks_size(ts),
        ({
            let m = spec_markup(in_attr, ts);
            m.fatal is None && m.cont ==> toks_size(m.rest) < toks_size(ts)
        }),
    decreases toks_size(ts), 0nat,
{
    if ts.len() >= 2 && ts[0] is Minus && ts[1] matches SpecToken::Literal(_) {
        lemma_toks_size_skip_smaller(ts, 2);
    } else if ts.len() >= 1 && ts[0] matches SpecToken::Literal(_) {
        lemma_toks_size_skip_smaller(ts, 1);
    } else if ts.len() >= 2 && ts[0] is Dollar && is_kw(ts[1], kw_if()) {
        lemma_toks_size_skip_smaller(ts, 2);
        lemma_if_expr_bound(in_attr, ts.skip(2));
    } else if ts.len() >= 2 && ts[0] is Dollar && ts[1] is Dollar {
        lemma_toks_size_skip_smaller(ts, 2);
        lemma_splice_bound(ts.skip(2));
    } else if ts.len() >= 1 && ts[0] is Dollar {
        lemma_toks_size_skip_smaller(ts, 1);
        lemma_splice_bound(ts.skip(1));
    } else if ts.len() >= 1 && ts[0] matches SpecToken::Ident(_) {
        lemma_toks_size_skip_smaller(ts, 1);
        lemma_element_bound(in_attr, ident_text(ts[0]), ts.skip(1));
    } else if ts.len() >= 1 && is_brace_group(ts[0]) {
        lemma_toks_size_skip_smaller(ts, 1);
    }
}

/// A conditional construct never grows the input.
pub proof fn lemma_if_expr_bound(in_attr: bool, ts: Seq<SpecToken>)
    ensures
        toks_size(spec_if_expr(in_attr, ts).rest) <= toks_size(ts),
    decreases toks_size(ts), 0nat,
{
    lemma_toks_size_skip_zero(ts);
    match first_brace(ts) {
        Option::None => {
            lemma_toks_size_skip_le(ts, 0, ts.len() as int);
        },
        Option::Some(i) => {
            lemma_first_brace(ts);
            lemma_toks_size_skip_le(ts, 0, i + 1);
            let rest1 = ts.skip(i + 1);
            if rest1.len() >= 2 && rest1[0] is Dollar && is_kw(rest1[1], kw_else()) {
                lemma_toks_size_skip_le(ts, i + 1, i + 3);
                crate::tokens::lemma_skip_skip(ts, i + 1, 2);
                let rest2 = rest1.skip(2);
                if rest2.len() >= 1 && is_kw(rest2[0], kw_if()) {
                    crate::tokens::lemma_skip_skip(ts, i + 3, 1);
                    lemma_toks_size_skip_le(ts, i + 3, i + 4);
                    lemma_if_expr_bound(in_attr, rest2.skip(1));
                } else if rest2.len() >= 1 && is_brace_group(rest2[0]) {
                    crate::tokens::lemma_skip_skip(ts, i + 3, 1);
                    lemma_toks_size_skip_le(ts, i + 3, i + 4);
                }
            }
        },
    }
}

/// An element never grows the input.
pub proof fn lemma_element_bound(in_attr: bool, name: Seq<char>, ts: Seq<SpecToken>)
    ensures
        toks_size(spec_element(in_attr, name, ts).rest) <= toks_size(ts),
    decreases toks_size(ts), 2nat,
{
    if !in_attr {
        let a = spec_attrs(in_attr, ts);
        lemma_attrs_bound(in_attr, ts);
        if a.fatal is None {
            if a.rest.len() >= 1 && a.rest[0] is Slash {
                lemma_toks_size_skip_smaller(a.rest, 1);
            } else if toks_size(a.rest) <= toks_size(ts) {
                lemma_markup_bound(in_attr, a.rest);
            }
        }
    }
}

/// The attribute loop never grows the input.
pub proof fn lemma_attrs_bound(in_attr: bool, ts: Seq<SpecToken>)
    ensures
        toks_size(spec_attrs(in_attr, ts).rest) <= toks_size(ts),
    decreases toks_size(ts), 1nat,
{
    if ts.len() >= 2 && (ts[0] matches SpecToken::Ident(_)) && ts[1] is Equals {
        lemma_toks_size_skip_smaller(ts, 2);
        let m = spec_markup(true, ts.skip(2));
        lemma_markup_bound(true, ts.skip(2));
        if m.fatal is None && toks_size(m.rest) < toks_size(ts) {
            lemma_attrs_bound(in_attr, m.rest);
        }
    } else if ts.len() >= 2 && (ts[0] matches SpecToken::Ident(_)) && ts[1] is Question {
        if ts.len() >= 3 && ts[2] is Equals {
            lemma_toks_size_skip_smaller(ts, 3);
            let sp = spec_splice(ts.skip(3));
            lemma_splice_bound(ts.skip(3));
            if sp.fatal is None && toks_size(sp.rest) < toks_size(ts) {
                lemma_attrs_bound(in_attr, sp.rest);
            }
        } else {
            lemma_toks_size_skip_smaller(ts, 2);
            lemma_attrs_bound(in_attr, ts.skip(2));
        }
    }
}

/// A literal unit emits exactly its canonical text, escaped, and consumes
/// exactly the literal token; binary and byte literals emit nothing and
/// report the binary-data diagnostic instead.
pub proof fn lemma_literal_emission(in_attr: bool, ts: Seq<SpecToken>)
    requires
        ts.len() >= 1,
        ts[0] matches SpecToken::Literal(_),
    ensures
        ({
            let s = spec_markup(in_attr, ts);
            &&& s.fatal is None
            &&& s.cont
            &&& s.rest == ts.skip(1)
            &&& match lit_text(lit_of(ts[0]), false) {
                Option::Some(txt) => s.ops == seq![SpecOp::AppendText(txt, Escape::Escape)]
                    && s.diags == Seq::<Diag>::empty(),
                Option::None => s.ops == Seq::<SpecOp>::empty() && s.diags == seq![
                    Diag::CannotSpliceBinary,
                ],
            }
        }),
{
}

/// A literal unit with a leading minus emits the same text with exactly
/// one `-` character in front, whatever the literal's kind; a literal that
/// has no text is rejected the same way with or without the minus.
pub proof fn lemma_minus_literal_emission(in_attr: bool, ts: Seq<SpecToken>)
    requires
        ts.len() >= 2,
        ts[0] is Minus,
        ts[1] matches SpecToken::Literal(_),
    ensures
        ({
            let s = spec_markup(in_attr, ts);
            &&& s.fatal is None
            &&& s.cont
            &&& s.rest == ts.skip(2)
            &&& match lit_text(lit_of(ts[1]), false) {
                Option::Some(txt) => s.ops == seq![
                    SpecOp::AppendText(seq!['-'] + txt, Escape::Escape),
                ] && s.diags == Seq::<Diag>::empty(),
                Option::None => s.ops == Seq::<SpecOp>::empty() && s.diags == seq![
                    Diag::CannotSpliceBinary,
                ],
            }
        }),
{
    crate::text::lemma_minus_prefixes_one_char(lit_of(ts[1]));
    if lit_text(lit_of(ts[1]), false) is Some {
        let with = lit_text(lit_of(ts[1]), true).unwrap();
        let without = lit_text(lit_of(ts[1]), false).unwrap();
        assert(with =~= seq!['-'] + without);
    }
}

/// An element in attribute-value position is rejected: the
/// unexpected-element diagnostic is reported, no tag operation is emitted,
/// and no input beyond the tag name is touched.
pub proof fn lemma_element_in_attr_rejected(ts: Seq<SpecToken>)
    requires
        ts.len() >= 1,
        ts[0] matches SpecToken::Ident(_),
    ensures
        ({
            let s = spec_markup(true, ts);
            &&& s.fatal is None
            &&& s.cont
            &&& s.rest == ts.skip(1)
            &&& s.ops == Seq::<SpecOp>::empty()
            &&& s.diags == seq![Diag::UnexpectedElement]
        }),
{
}


/// The operations that run at rendering time for a fixed evaluation of a
/// conditional's condition: those of exactly one branch, never both.
pub open spec fn taken_branch(op: SpecOp, cond_true: bool) -> Seq<SpecOp> {
    match op {
        SpecOp::If(_, t, e) => if cond_true {
            t
        } else {
            match e {
                Option::Some(v) => v,
                Option::None => Seq::empty(),
            }
        },
        _ => Seq::empty(),
    }
}

/// The splice continuation captures a prefix of its input and leaves
/// exactly the suffix after it.
pub proof fn lemma_splice_ext_contiguous(ts: Seq<SpecToken>)
    ensures
        ({
            let e = spec_splice_ext(ts);
            &&& e.expr.len() <= ts.len()
            &&& e.expr == ts.subrange(0, e.expr.len() as int)
            &&& e.rest == ts.skip(e.expr.len() as int)
        }),
    decreases toks_size(ts), 0nat,
{
    if ts.len() >= 2 && ts[0] is Dot && ts[1] matches SpecToken::Ident(_) {
        lemma_toks_size_skip_smaller(ts, 2);
        lemma_splice_ext_contiguous(ts.skip(2));
        let e2 = spec_splice_ext(ts.skip(2));
        let e = spec_splice_ext(ts);
        assert(e.expr =~= ts.subrange(0, e.expr.len() as int));
        assert(e.rest =~= ts.skip(e.expr.len() as int));
    } else if ts.len() >= 1 && (ts[0] matches SpecToken::Group(d, _) && !(d is Brace)) {
        lemma_toks_size_skip_smaller(ts, 1);
        lemma_splice_ext_contiguous(ts.skip(1));
        let e = spec_splice_ext(ts);
        assert(e.expr =~= ts.subrange(0, e.expr.len() as int));
        assert(e.rest =~= ts.skip(e.expr.len() as int));
    } else {
        let e = spec_splice_ext(ts);
        assert(e.expr =~= ts.subrange(0, 0));
        assert(e.rest =~= ts.skip(0));
    }
}

/// A splice on a non-empty input succeeds and captures one contiguous
/// slice: the expression is a prefix of the input of at least one token,
/// and what is left is exactly the suffix beyond it — nothing past the
/// first non-matching token is taken.
pub proof fn lemma_splice_contiguous(ts: Seq<SpecToken>)
    requires
        ts.len() >= 1,
    ensures
        ({
            let sp = spec_splice(ts);
            &&& sp.fatal is None
            &&& 1 <= sp.expr.len() <= ts.len()
            &&& sp.expr == ts.subrange(0, sp.expr.len() as int)
            &&& sp.rest == ts.skip(sp.expr.len() as int)
        }),
{
    lemma_splice_ext_contiguous(ts.skip(1));
    let sp = spec_splice(ts);
    assert(sp.expr =~= ts.subrange(0, sp.expr.len() as int));
    assert(sp.rest =~= ts.skip(sp.expr.len() as int));
}

/// A presence-only attribute without `=` always emits its empty-attribute
/// operation, unconditionally, before whatever the rest of the attribute
/// list emits.
pub proof fn lemma_empty_attr_unconditional(in_attr: bool, ts: Seq<SpecToken>)
    requires
        ts.len() >= 2,
        ts[0] matches SpecToken::Ident(_),
        ts[1] is Question,
        ts.len() >= 3 ==> !(ts[2] is Equals),
    ensures
        ({
            let s = spec_attrs(in_attr, ts);
            let r = spec_attrs(in_attr, ts.skip(2));
            &&& s.ops == seq![SpecOp::AttrEmpty(ident_text(ts[0]))] + r.ops
            &&& s.ops[0] == SpecOp::AttrEmpty(ident_text(ts[0]))
        }),
{
}

/// A presence-only attribute with `= expr` emits one conditional operation
/// whose then branch is exactly the empty-attribute operation and whose
/// else branch is absent: the attribute appears when the expression holds
/// and nothing at all happens when it does not.
pub proof fn lemma_toggled_attr(in_attr: bool, ts: Seq<SpecToken>)
    requires
        ts.len() >= 4,
        ts[0] matches SpecToken::Ident(_),
        ts[1] is Question,
        ts[2] is Equals,
    ensures
        ({
            let s = spec_attrs(in_attr, ts);
            let sp = spec_splice(ts.skip(3));
            let op = SpecOp::If(
                spec_strip_outer_parens(sp.expr),
                seq![SpecOp::AttrEmpty(ident_text(ts[0]))],
                Option::None,
            );
            &&& sp.fatal is None
            &&& s.fatal == spec_attrs(in_attr, sp.rest).fatal
            &&& s.ops == seq![op] + spec_attrs(in_attr, sp.rest).ops
            &&& taken_branch(op, true) == seq![SpecOp::AttrEmpty(ident_text(ts[0]))]
            &&& taken_branch(op, false) == Seq::<SpecOp>::empty()
        }),
{
    lemma_toks_size_skip_smaller(ts, 3);
    lemma_splice_bound(ts.skip(3));
}

/// A self-closing element emits its opening tag and nothing else: no body
/// is parsed and no close operation is emitted.
pub proof fn lemma_self_closing_element(name: Seq<char>, ts: Seq<SpecToken>)
    requires
        ({
            let a = spec_attrs(false, ts);
            &&& a.fatal is None
            &&& a.rest.len() >= 1
            &&& a.rest[0] is Slash
        }),
    ensures
        ({
            let s = spec_element(false, name, ts);
            let a = spec_attrs(false, ts);
            &&& s.fatal is None
            &&& s.ops == seq![SpecOp::OpenTagStart(name)] + a.ops + seq![SpecOp::OpenTagEnd]
            &&& s.rest == a.rest.skip(1)
            &&& s.diags == a.diags
        }),
{
}

/// An element with a body emits matching open and close operations around
/// exactly one markup unit's output.
pub proof fn lemma_element_with_body(name: Seq<char>, ts: Seq<SpecToken>)
    requires
        ({
            let a = spec_attrs(false, ts);
            &&& a.fatal is None
            &&& a.rest.len() >= 1 ==> !(a.rest[0] is Slash)
            &&& spec_markup(false, a.rest).fatal is None
        }),
    ensures
        ({
            let s = spec_element(false, name, ts);
            let a = spec_attrs(false, ts);
            let m = spec_markup(false, a.rest);
            &&& s.fatal is None
            &&& s.ops == seq![SpecOp::OpenTagStart(name)] + a.ops + seq![SpecOp::OpenTagEnd]
                + m.ops + seq![SpecOp::CloseTag(name)]
            &&& s.rest == m.rest
        }),
{
    lemma_attrs_bound(false, ts);
}

/// Whether every token is a literal that has a canonical text.
pub open spec fn all_text_literals(ts: Seq<SpecToken>) -> bool {
    forall|j: int|
        0 <= j < ts.len() ==> (ts[j] matches SpecToken::Literal(_)) && lit_text(
            lit_of(ts[j]),
            false,
        ) is Some
}

/// The texts of a sequence of literal tokens, concatenated in order.
pub open spec fn literal_texts(ts: Seq<SpecToken>) -> Seq<char>
    decreases ts.len(),
{
    if ts.len() == 0 {
        Seq::empty()
    } else {
        (match lit_text(lit_of(ts[0]), false) {
            Option::Some(t) => t,
            Option::None => Seq::empty(),
        }) + literal_texts(ts.skip(1))
    }
}

/// The text that executing an operation sequence appends, for sequences of
/// text appends.
pub open spec fn appended_text(ops: Seq<SpecOp>) -> Seq<char>
    decreases ops.len(),
{
    if ops.len() == 0 {
        Seq::empty()
    } else {
        (match ops[0] {
            SpecOp::AppendText(t, _) => t,
            _ => Seq::empty(),
        }) + appended_text(ops.skip(1))
    }
}

/// Round trip for static templates: a template of literal tokens alone
/// parses without error or diagnostic, emits one escaped text append per
/// literal, and executing those appends reproduces the literal text
/// character for character, with escaping applied uniformly.
pub proof fn lemma_literal_round_trip(ts: Seq<SpecToken>)
    requires
        all_text_literals(ts),
    ensures
        ({
            let s = spec_parse(ts);
            &&& s.fatal is None
            &&& s.diags == Seq::<Diag>::empty()
            &&& s.rest == Seq::<SpecToken>::empty()
            &&& forall|i: int|
                0 <= i < s.ops.len() ==> ((#[trigger] s.ops[i]) matches SpecOp::AppendText(_, e)
                    && e is Escape)
            &&& appended_text(s.ops) == literal_texts(ts)
        }),
    decreases ts.len(),
{
    let s = spec_parse(ts);
    if ts.len() == 0 {
        assert(s.rest =~= Seq::<SpecToken>::empty());
    } else {
        lemma_literal_emission(false, ts);
        lemma_toks_size_skip_smaller(ts, 1);
        assert forall|j: int| 0 <= j < ts.skip(1).len() implies (ts.skip(1)[j]
            matches SpecToken::Literal(_)) && lit_text(lit_of(ts.skip(1)[j]), false) is Some by {
            assert(ts.skip(1)[j] == ts[j + 1]);
        }
        lemma_literal_round_trip(ts.skip(1));
        let m = spec_markup(false, ts);
        let r = spec_markups(false, ts.skip(1));
        let t0 = lit_text(lit_of(ts[0]), false).unwrap();
        assert(s.ops =~= seq![SpecOp::AppendText(t0, Escape::Escape)] + r.ops);
        assert(s.ops.skip(1) =~= r.ops);
        assert(appended_text(s.ops) == t0 + appended_text(r.ops));
        assert(s.diags =~= Seq::<Diag>::empty());
        assert forall|i: int| 0 <= i < s.ops.len() implies ((#[trigger] s.ops[i])
            matches SpecOp::AppendText(_, e) && e is Escape) by {
            if i >= 1 {
                assert(s.ops[i] == r.ops[i - 1]);
            }
        }
    }
}


/// Whether no token of the sequence is a brace group.
pub open spec fn no_braces(ts: Seq<SpecToken>) -> bool {
    forall|j: int| 0 <= j < ts.len() ==> !is_brace_group(#[trigger] ts[j])
}

/// A brace-delimited body.
pub open spec fn braced(ts: Seq<SpecToken>) -> SpecToken {
    SpecToken::Group(Delim::Brace, ts)
}

/// The first brace group of a sequence is found exactly where one stands
/// with none before it.
pub proof fn lemma_first_brace_at(ts: Seq<SpecToken>, i: int)
    requires
        0 <= i < ts.len(),
        is_brace_group(ts[i]),
        forall|j: int| 0 <= j < i ==> !is_brace_group(#[trigger] ts[j]),
    ensures
        first_brace(ts) == Option::Some(i),
{
    lemma_first_brace(ts);
}

/// The token form of an `if .. else if .. else ..` chain, as it stands
/// after the leading `$ if`: each link is a condition and a braced body,
/// joined by `$ else if`, with a final braced `else` body.
pub open spec fn chain_toks(
    conds: Seq<Seq<SpecToken>>,
    bodies: Seq<Seq<SpecToken>>,
    els: Seq<SpecToken>,
) -> Seq<SpecToken>
    decreases conds.len(),
{
    if conds.len() <= 1 {
        conds[0] + seq![
            braced(bodies[0]),
            SpecToken::Dollar,
            SpecToken::Ident(kw_else()),
            braced(els),
        ]
    } else {
        conds[0] + seq![
            braced(bodies[0]),
            SpecToken::Dollar,
            SpecToken::Ident(kw_else()),
            SpecToken::Ident(kw_if()),
        ] + chain_toks(conds.skip(1), bodies.skip(1), els)
    }
}

/// The conditional operation such a chain compiles to: one link per
/// condition, each else branch holding exactly the next link as its sole
/// content, and the final else body ending the chain.
pub open spec fn chain_op(
    in_attr: bool,
    conds: Seq<Seq<SpecToken>>,
    bodies: Seq<Seq<SpecToken>>,
    els: Seq<SpecToken>,
) -> SpecOp
    decreases conds.len(),
{
    if conds.len() <= 1 {
        SpecOp::If(
            conds[0],
            spec_markups(in_attr, bodies[0]).ops,
            Option::Some(spec_markups(in_attr, els).ops),
        )
    } else {
        SpecOp::If(
            conds[0],
            spec_markups(in_attr, bodies[0]).ops,
            Option::Some(seq![chain_op(in_attr, conds.skip(1), bodies.skip(1), els)]),
        )
    }
}

/// The number of else-if links a conditional operation nests.
pub open spec fn chain_links(op: SpecOp) -> nat
    decreases op,
{
    match op {
        SpecOp::If(_, _, e) => match e {
            Option::Some(v) => if v.len() == 1 && (v[0] matches SpecOp::If(_, _, _)) {
                1 + chain_links(v[0])
            } else {
                0
            },
            Option::None => 0,
        },
        _ => 0,
    }
}

/// Whether an operation sequence is exactly one conditional operation — an
/// `else` body of that shape compiles to the same tree as one more
/// `else if` link, so the two cannot be told apart afterwards.
pub open spec fn single_conditional(ops: Seq<SpecOp>) -> bool {
    ops.len() == 1 && (ops[0] matches SpecOp::If(_, _, _))
}

/// A compiled chain nests exactly one link per `else if`, provided the
/// final `else` body is not itself exactly one conditional.
pub proof fn lemma_chain_op_links(
    in_attr: bool,
    conds: Seq<Seq<SpecToken>>,
    bodies: Seq<Seq<SpecToken>>,
    els: Seq<SpecToken>,
)
    requires
        conds.len() >= 1,
        !single_conditional(spec_markups(in_attr, els).ops),
    ensures
        chain_links(chain_op(in_attr, conds, bodies, els)) == conds.len() - 1,
    decreases conds.len(),
{
    if conds.len() > 1 {
        lemma_chain_op_links(in_attr, conds.skip(1), bodies.skip(1), els);
        assert(chain_op(in_attr, conds.skip(1), bodies.skip(1), els) matches SpecOp::If(
            _,
            _,
            _,
        ));
    }
}

/// A well-formed conditional chain compiles to exactly one conditional
/// operation nested one level per `else if` link, consuming the whole
/// chain: the live sequence receives one operation, every branch's
/// operations stand isolated inside it, and for any fixed condition
/// evaluation `taken_branch` selects the operations of exactly one branch
/// at each link.
pub proof fn lemma_if_chain(
    in_attr: bool,
    conds: Seq<Seq<SpecToken>>,
    bodies: Seq<Seq<SpecToken>>,
    els: Seq<SpecToken>,
)
    requires
        conds.len() == bodies.len(),
        conds.len() >= 1,
        forall|k: int| 0 <= k < conds.len() ==> no_braces(#[trigger] conds[k]),
        forall|k: int|
            0 <= k < bodies.len() ==> spec_markups(in_attr, #[trigger] bodies[k]).fatal is None,
        spec_markups(in_attr, els).fatal is None,
        !single_conditional(spec_markups(in_attr, els).ops),
    ensures
        ({
            let s = spec_if_expr(in_attr, chain_toks(conds, bodies, els));
            &&& s.fatal is None
            &&& s.rest == Seq::<SpecToken>::empty()
            &&& s.ops == seq![chain_op(in_attr, conds, bodies, els)]
            &&& chain_links(s.ops[0]) == conds.len() - 1
        }),
    decreases conds.len(),
{
    let ts = chain_toks(conds, bodies, els);
    let c0 = conds[0];
    let n = c0.len() as int;
    assert(ts[n] == braced(bodies[0]));
    assert forall|j: int| 0 <= j < n implies !is_brace_group(#[trigger] ts[j]) by {
        assert(ts[j] == c0[j]);
    }
    lemma_first_brace_at(ts, n);
    assert(ts.subrange(0, n) =~= c0);
    assert(group_inner(ts[n]) == bodies[0]);
    let rest1 = ts.skip(n + 1);
    if conds.len() <= 1 {
        assert(rest1 =~= seq![
            SpecToken::Dollar,
            SpecToken::Ident(kw_else()),
            braced(els),
        ]);
        let rest2 = rest1.skip(2);
        assert(rest2 =~= seq![braced(els)]);
        assert(!is_kw(rest2[0], kw_if()));
        assert(is_brace_group(rest2[0]));
        assert(group_inner(rest2[0]) == els);
        assert(rest2.skip(1) =~= Seq::<SpecToken>::empty());
        let s = spec_if_expr(in_attr, ts);
        assert(s.ops =~= seq![chain_op(in_attr, conds, bodies, els)]);
    } else {
        let tail = chain_toks(conds.skip(1), bodies.skip(1), els);
        assert(rest1 =~= seq![
            SpecToken::Dollar,
            SpecToken::Ident(kw_else()),
            SpecToken::Ident(kw_if()),
        ] + tail);
        let rest2 = rest1.skip(2);
        assert(rest2 =~= seq![SpecToken::Ident(kw_if())] + tail);
        assert(is_kw(rest2[0], kw_if()));
        assert(rest2.skip(1) =~= tail);
        assert forall|k: int| 0 <= k < conds.skip(1).len() implies no_braces(
            #[trigger] conds.skip(1)[k],
        ) by {
            assert(conds.skip(1)[k] == conds[k + 1]);
        }
        assert forall|k: int| 0 <= k < bodies.skip(1).len() implies spec_markups(
            in_attr,
            #[trigger] bodies.skip(1)[k],
        ).fatal is None by {
            assert(bodies.skip(1)[k] == bodies[k + 1]);
        }
        lemma_if_chain(in_attr, conds.skip(1), bodies.skip(1), els);
        let s = spec_if_expr(in_attr, ts);
        assert(s.ops =~= seq![chain_op(in_attr, conds, bodies, els)]);
    }
    lemma_chain_op_links(in_attr, conds, bodies, els);
}


/// A conditional operation runs exactly one branch: for any fixed
/// evaluation of its condition the selected operations are those of the
/// then branch or those of the else branch (empty when absent), never a
/// mixture of both.
pub proof fn lemma_exactly_one_branch(c: Seq<SpecToken>, t: Seq<SpecOp>, e: Option<Seq<SpecOp>>)
    ensures
        taken_branch(SpecOp::If(c, t, e), true) == t,
        taken_branch(SpecOp::If(c, t, e), false) == (match e {
            Option::Some(v) => v,
            Option::None => Seq::<SpecOp>::empty(),
        }),
{
}

} // verus!
