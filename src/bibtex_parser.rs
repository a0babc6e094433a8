//! Recursive-descent parser for the BibTeX grammar: `@string` definitions,
//! entries with fields, and values joined by `#`. Text between entries is
//! kept as junk. Like the LaTeX parser it never fails and always terminates.
use vstd::prelude::*;
use crate::latex_parser::{close_spec, is_command_token, open_spec, parse_single, room, room1, single_spec, skip_trivia, token_is, trivia_end};
use crate::lexer::{Token, TokenKind};
use crate::tree::{
    Node, NodeKind, kinds_ok, extends, finish_node, firsts_le, fresh_within, lemma_chain, nodes_ok, open_node,
    step_ok, step_pre, tokens_in,
};

verus! {

pub open spec fn is_value_start(kind: TokenKind) -> bool {
    kind == TokenKind::LCurly || kind == TokenKind::Quote || kind == TokenKind::Word
}

fn is_value_start_exec(kind: TokenKind) -> (r: bool)
    ensures
        r == is_value_start(kind),
{
    kind == TokenKind::LCurly || kind == TokenKind::Quote || kind == TokenKind::Word
}

/// The contents of a braced group from token `p` on, up to and with its
/// closing brace.
pub open spec fn bib_braced_loop(toks: Seq<Token>, nodes: Seq<Node>, p: int) -> (Seq<Node>, int)
    decreases toks.len() - p, 2int,
{
    if p < 0 || p >= toks.len() {
        (nodes, p)
    } else if toks[p].kind == TokenKind::RCurly {
        (nodes, p + 1)
    } else if toks[p].kind == TokenKind::LCurly {
        let st = bib_braced(toks, nodes, p);
        if p < st.1 <= toks.len() {
            bib_braced_loop(toks, st.0, st.1)
        } else {
            st
        }
    } else {
        bib_braced_loop(toks, nodes, p + 1)
    }
}

/// A braced group at `pos`.
pub open spec fn bib_braced(toks: Seq<Token>, nodes: Seq<Node>, pos: int) -> (Seq<Node>, int)
    decreases toks.len() - pos, 1int,
{
    if pos < 0 || pos >= toks.len() {
        (nodes, pos)
    } else {
        let st = bib_braced_loop(toks, open_spec(nodes, NodeKind::CurlyGroup, pos), pos + 1);
        (close_spec(st.0, nodes.len() as int, st.1), st.1)
    }
}

/// The contents of a quoted string from token `p` on, up to and with its
/// closing quote.
pub open spec fn bib_quoted_loop(toks: Seq<Token>, nodes: Seq<Node>, p: int) -> (Seq<Node>, int)
    decreases toks.len() - p,
{
    if p < 0 || p >= toks.len() {
        (nodes, p)
    } else if toks[p].kind == TokenKind::Quote {
        (nodes, p + 1)
    } else if toks[p].kind == TokenKind::LCurly {
        let st = bib_braced(toks, nodes, p);
        if p < st.1 <= toks.len() {
            bib_quoted_loop(toks, st.0, st.1)
        } else {
            st
        }
    } else {
        bib_quoted_loop(toks, nodes, p + 1)
    }
}

pub open spec fn bib_quoted(toks: Seq<Token>, nodes: Seq<Node>, pos: int) -> (Seq<Node>, int) {
    let st = bib_quoted_loop(toks, open_spec(nodes, NodeKind::Quoted, pos), pos + 1);
    (close_spec(st.0, nodes.len() as int, st.1), st.1)
}

/// One operand of a value at `pos`.
pub open spec fn bib_part(toks: Seq<Token>, nodes: Seq<Node>, pos: int) -> (Seq<Node>, int) {
    if toks[pos].kind == TokenKind::LCurly {
        bib_braced(toks, nodes, pos)
    } else if toks[pos].kind == TokenKind::Quote {
        bib_quoted(toks, nodes, pos)
    } else {
        single_spec(nodes, NodeKind::Reference, pos)
    }
}

/// Further operands, each after a `#`, from token `p` on.
pub open spec fn bib_value_loop(toks: Seq<Token>, nodes: Seq<Node>, p: int) -> (Seq<Node>, int)
    decreases toks.len() - p,
{
    let q = trivia_end(toks, p);
    if p <= q < toks.len() && toks[q].kind == TokenKind::Hash {
        let q2 = trivia_end(toks, q + 1);
        if q2 < toks.len() && is_value_start(toks[q2].kind) {
            let st = bib_part(toks, nodes, q2);
            if p < st.1 <= toks.len() {
                bib_value_loop(toks, st.0, st.1)
            } else {
                st
            }
        } else {
            (nodes, q + 1)
        }
    } else {
        (nodes, p)
    }
}

/// A value at `pos`: operands joined by `#`.
pub open spec fn bib_value(toks: Seq<Token>, nodes: Seq<Node>, pos: int) -> (Seq<Node>, int) {
    let n0 = open_spec(nodes, NodeKind::Value, pos);
    let s1 = bib_part(toks, n0, pos);
    let s2 = bib_value_loop(toks, s1.0, s1.1);
    (close_spec(s2.0, nodes.len() as int, s2.1), s2.1)
}

/// A field at `pos`: `name = value`.
pub open spec fn bib_field(toks: Seq<Token>, nodes: Seq<Node>, pos: int) -> (Seq<Node>, int) {
    let n0 = open_spec(nodes, NodeKind::Field, pos);
    let q = trivia_end(toks, pos + 1);
    let st = if q < toks.len() && toks[q].kind == TokenKind::Eq {
        let q2 = trivia_end(toks, q + 1);
        if q2 < toks.len() && is_value_start(toks[q2].kind) {
            bib_value(toks, n0, q2)
        } else {
            (n0, q + 1)
        }
    } else {
        (n0, pos + 1)
    };
    (close_spec(st.0, nodes.len() as int, st.1), st.1)
}

/// The fields of an entry from token `p` on, up to and with its closing
/// delimiter, or up to the next entry.
pub open spec fn bib_entry_loop(toks: Seq<Token>, nodes: Seq<Node>, p: int) -> (Seq<Node>, int)
    decreases toks.len() - p,
{
    let q = trivia_end(toks, p);
    if q < p || q >= toks.len() {
        (nodes, p)
    } else if toks[q].kind == TokenKind::Word {
        let st = bib_field(toks, nodes, q);
        if p < st.1 <= toks.len() {
            bib_entry_loop(toks, st.0, st.1)
        } else {
            st
        }
    } else if toks[q].kind == TokenKind::RCurly || toks[q].kind == TokenKind::RParen {
        (nodes, q + 1)
    } else if toks[q].kind == TokenKind::EntryType {
        (nodes, p)
    } else {
        bib_entry_loop(toks, nodes, q + 1)
    }
}

/// An entry (or, with `string`, a `@string`) at `pos`.
pub open spec fn bib_entry(toks: Seq<Token>, nodes: Seq<Node>, pos: int, string: bool) -> (Seq<Node>, int) {
    let kind = if string { NodeKind::StringDef } else { NodeKind::Entry };
    let n0 = open_spec(nodes, kind, pos);
    let q = trivia_end(toks, pos + 1);
    let st = if q < toks.len() && (toks[q].kind == TokenKind::LCurly || toks[q].kind == TokenKind::LParen) {
        let q2 = trivia_end(toks, q + 1);
        let p = if !string && q2 < toks.len() && toks[q2].kind == TokenKind::Word { q2 + 1 } else { q + 1 };
        bib_entry_loop(toks, n0, p)
    } else {
        (n0, pos + 1)
    };
    (close_spec(st.0, nodes.len() as int, st.1), st.1)
}

/// Whether token `p` opens a `@string` definition.
pub open spec fn is_string_token(text: Seq<char>, toks: Seq<Token>, p: int) -> bool {
    is_command_token(text, toks, p, "@string"@) || is_command_token(text, toks, p, "@String"@)
        || is_command_token(text, toks, p, "@STRING"@)
}

/// The next entry type token at or after `q`, or the end.
pub open spec fn junk_end(toks: Seq<Token>, q: int) -> int
    decreases toks.len() - q,
{
    if 0 <= q < toks.len() && toks[q].kind != TokenKind::EntryType {
        junk_end(toks, q + 1)
    } else {
        q
    }
}

/// The top level of a BibTeX document from token `p` on: entries, and junk
/// between them.
pub open spec fn bib_root_loop(text: Seq<char>, toks: Seq<Token>, nodes: Seq<Node>, p: int) -> (Seq<Node>, int)
    decreases toks.len() - p,
{
    if p < 0 || p >= toks.len() {
        (nodes, p)
    } else {
        let st = if toks[p].kind == TokenKind::EntryType {
            bib_entry(toks, nodes, p, is_string_token(text, toks, p))
        } else {
            let q = junk_end(toks, p + 1);
            (close_spec(open_spec(nodes, NodeKind::Junk, p), nodes.len() as int, q), q)
        };
        if p < st.1 <= toks.len() {
            bib_root_loop(text, toks, st.0, st.1)
        } else {
            st
        }
    }
}

/// The nodes of a BibTeX document with tokens `toks`.
pub open spec fn bibtex_nodes(text: Seq<char>, toks: Seq<Token>) -> Seq<Node> {
    let st = bib_root_loop(text, toks, open_spec(Seq::empty(), NodeKind::Root, 0), 0);
    close_spec(st.0, 0, st.1)
}

/// A braced group; only nested groups become nodes inside it.
fn parse_braced(toks: &Vec<Token>, nodes: &mut Vec<Node>, pos: usize) -> (r: usize)
    requires
        toks@[pos as int].kind == TokenKind::LCurly,
        step_pre(old(nodes)@, pos as int, toks@.len()),
        kinds_ok(old(nodes)@, toks@),
        pos < toks@.len(),
        room1(old(nodes)@.len() as int, toks@.len() as int, pos as int),
    ensures
        (final(nodes)@, r as int) == bib_braced(toks@, old(nodes)@, pos as int),
        step_ok(old(nodes)@, final(nodes)@, pos as int, r as int, toks@.len()),
        kinds_ok(final(nodes)@, toks@),
        pos < r,
        final(nodes)@.len() + 1 <= old(nodes)@.len() + 2 * (r - pos),
    decreases toks@.len() - pos, 1nat,
{
    let ghost ntok = toks@.len();
    let ghost before = nodes@;
    let i = open_node(nodes, NodeKind::CurlyGroup, pos, Ghost(ntok), Ghost(toks@));
    let ghost opened = nodes@;
    let mut p = pos + 1;
    while p < toks.len()
        invariant_except_break
            bib_braced_loop(toks@, nodes@, p as int) == bib_braced_loop(toks@, opened, pos + 1),
        invariant
            pos < p <= toks@.len(),
            ntok == toks@.len(),
            opened.len() == i + 1,
            extends(opened, nodes@),
            fresh_within(i + 1, nodes@, pos as int, p as int),
            nodes_ok(nodes@, ntok),
            kinds_ok(nodes@, toks@),
            firsts_le(nodes@, p as int),
            nodes@.len() + 1 <= before.len() + 2 * (p - pos),
            room1(before.len() as int, ntok as int, pos as int),
        ensures
            bib_braced_loop(toks@, opened, pos + 1) == (nodes@, p as int),
        decreases toks.len() - p,
    {
        let k = toks[p].kind;
        if k == TokenKind::RCurly {
            p = p + 1;
            break;
        } else if k == TokenKind::LCurly {
            let ghost b = nodes@;
            let ghost p0 = p;
            p = parse_braced(toks, nodes, p);
            proof {
                lemma_chain(opened, b, nodes@, i + 1, pos as int, p0 as int, p as int, ntok);
            }
        } else {
            p = p + 1;
        }
    }
    finish_node(nodes, i, p, Ghost(ntok), Ghost(before), Ghost(opened), Ghost(toks@));
    p
}

/// A quoted string, with braced groups inside it.
fn parse_quoted(toks: &Vec<Token>, nodes: &mut Vec<Node>, pos: usize) -> (r: usize)
    requires
        toks@[pos as int].kind == TokenKind::Quote,
        step_pre(old(nodes)@, pos as int, toks@.len()),
        kinds_ok(old(nodes)@, toks@),
        pos < toks@.len(),
        room1(old(nodes)@.len() as int, toks@.len() as int, pos as int),
    ensures
        (final(nodes)@, r as int) == bib_quoted(toks@, old(nodes)@, pos as int),
        step_ok(old(nodes)@, final(nodes)@, pos as int, r as int, toks@.len()),
        kinds_ok(final(nodes)@, toks@),
        pos < r,
        final(nodes)@.len() + 1 <= old(nodes)@.len() + 2 * (r - pos),
    decreases toks@.len() - pos, 1nat,
{
    let ghost ntok = toks@.len();
    let ghost before = nodes@;
    let i = open_node(nodes, NodeKind::Quoted, pos, Ghost(ntok), Ghost(toks@));
    let ghost opened = nodes@;
    let mut p = pos + 1;
    while p < toks.len()
        invariant_except_break
            bib_quoted_loop(toks@, nodes@, p as int) == bib_quoted_loop(toks@, opened, pos + 1),
        invariant
            pos < p <= toks@.len(),
            ntok == toks@.len(),
            opened.len() == i + 1,
            extends(opened, nodes@),
            fresh_within(i + 1, nodes@, pos as int, p as int),
            nodes_ok(nodes@, ntok),
            kinds_ok(nodes@, toks@),
            firsts_le(nodes@, p as int),
            nodes@.len() + 1 <= before.len() + 2 * (p - pos),
            room1(before.len() as int, ntok as int, pos as int),
        ensures
            bib_quoted_loop(toks@, opened, pos + 1) == (nodes@, p as int),
        decreases toks.len() - p,
    {
        let k = toks[p].kind;
        if k == TokenKind::Quote {
            p = p + 1;
            break;
        } else if k == TokenKind::LCurly {
            let ghost b = nodes@;
            let ghost p0 = p;
            p = parse_braced(toks, nodes, p);
            proof {
                lemma_chain(opened, b, nodes@, i + 1, pos as int, p0 as int, p as int, ntok);
            }
        } else {
            p = p + 1;
        }
    }
    finish_node(nodes, i, p, Ghost(ntok), Ghost(before), Ghost(opened), Ghost(toks@));
    p
}

/// One operand of a value: a braced group, a quoted string, or a bare word
/// that refers to an `@string` definition.
fn parse_part(toks: &Vec<Token>, nodes: &mut Vec<Node>, pos: usize) -> (r: usize)
    requires
        step_pre(old(nodes)@, pos as int, toks@.len()),
        kinds_ok(old(nodes)@, toks@),
        pos < toks@.len(),
        is_value_start(toks@[pos as int].kind),
        room1(old(nodes)@.len() as int, toks@.len() as int, pos as int),
    ensures
        (final(nodes)@, r as int) == bib_part(toks@, old(nodes)@, pos as int),
        step_ok(old(nodes)@, final(nodes)@, pos as int, r as int, toks@.len()),
        kinds_ok(final(nodes)@, toks@),
        pos < r,
        final(nodes)@.len() + 1 <= old(nodes)@.len() + 2 * (r - pos),
    decreases toks@.len() - pos, 2nat,
{
    let k = toks[pos].kind;
    if k == TokenKind::LCurly {
        parse_braced(toks, nodes, pos)
    } else if k == TokenKind::Quote {
        parse_quoted(toks, nodes, pos)
    } else {
        parse_single(toks, nodes, NodeKind::Reference, pos)
    }
}

/// Operands joined by `#`.
fn parse_value(toks: &Vec<Token>, nodes: &mut Vec<Node>, pos: usize) -> (r: usize)
    requires
        step_pre(old(nodes)@, pos as int, toks@.len()),
        kinds_ok(old(nodes)@, toks@),
        pos < toks@.len(),
        is_value_start(toks@[pos as int].kind),
        room(old(nodes)@.len() as int, toks@.len() as int, pos as int),
    ensures
        (final(nodes)@, r as int) == bib_value(toks@, old(nodes)@, pos as int),
        step_ok(old(nodes)@, final(nodes)@, pos as int, r as int, toks@.len()),
        kinds_ok(final(nodes)@, toks@),
        pos < r,
        final(nodes)@.len() <= old(nodes)@.len() + 2 * (r - pos),
{
    let ghost ntok = toks@.len();
    let ghost before = nodes@;
    let i = open_node(nodes, NodeKind::Value, pos, Ghost(ntok), Ghost(toks@));
    let ghost opened = nodes@;
    let mut p = parse_part(toks, nodes, pos);
    let ghost s1n = nodes@;
    let ghost s1p = p as int;
    proof {
        lemma_chain(opened, opened, nodes@, i + 1, pos as int, pos as int, p as int, ntok);
    }
    loop
        invariant_except_break
            bib_value_loop(toks@, nodes@, p as int) == bib_value_loop(toks@, s1n, s1p),
        invariant
            pos < p <= toks@.len(),
            ntok == toks@.len(),
            opened.len() == i + 1,
            extends(opened, nodes@),
            fresh_within(i + 1, nodes@, pos as int, p as int),
            nodes_ok(nodes@, ntok),
            kinds_ok(nodes@, toks@),
            firsts_le(nodes@, p as int),
            nodes@.len() <= before.len() + 2 * (p - pos),
            room(before.len() as int, ntok as int, pos as int),
        ensures
            bib_value_loop(toks@, s1n, s1p) == (nodes@, p as int),
        decreases toks.len() - p,
    {
        let q = skip_trivia(toks, p);
        if q < toks.len() && toks[q].kind == TokenKind::Hash {
            let q2 = skip_trivia(toks, q + 1);
            if q2 < toks.len() && is_value_start_exec(toks[q2].kind) {
                let ghost b = nodes@;
                let ghost p0 = p;
                p = parse_part(toks, nodes, q2);
                proof {
                    lemma_chain(opened, b, nodes@, i + 1, pos as int, p0 as int, p as int, ntok);
                }
            } else {
                p = q + 1;
                break;
            }
        } else {
            break;
        }
    }
    finish_node(nodes, i, p, Ghost(ntok), Ghost(before), Ghost(opened), Ghost(toks@));
    p
}

/// `name = value`.
fn parse_field(toks: &Vec<Token>, nodes: &mut Vec<Node>, pos: usize) -> (r: usize)
    requires
        toks@[pos as int].kind == TokenKind::Word,
        step_pre(old(nodes)@, pos as int, toks@.len()),
        kinds_ok(old(nodes)@, toks@),
        pos < toks@.len(),
        room(old(nodes)@.len() as int, toks@.len() as int, pos as int),
    ensures
        (final(nodes)@, r as int) == bib_field(toks@, old(nodes)@, pos as int),
        step_ok(old(nodes)@, final(nodes)@, pos as int, r as int, toks@.len()),
        kinds_ok(final(nodes)@, toks@),
        pos < r,
        final(nodes)@.len() + 1 <= old(nodes)@.len() + 2 * (r - pos),
{
    let ghost ntok = toks@.len();
    let ghost before = nodes@;
    let i = open_node(nodes, NodeKind::Field, pos, Ghost(ntok), Ghost(toks@));
    let ghost opened = nodes@;
    let mut p = pos + 1;
    let q = skip_trivia(toks, p);
    if q < toks.len() && toks[q].kind == TokenKind::Eq {
        p = q + 1;
        let q2 = skip_trivia(toks, p);
        if q2 < toks.len() && is_value_start_exec(toks[q2].kind) {
            let ghost p0 = p;
            p = parse_value(toks, nodes, q2);
            proof {
                lemma_chain(opened, opened, nodes@, i + 1, pos as int, q2 as int, p as int, ntok);
            }
        }
    }
    finish_node(nodes, i, p, Ghost(ntok), Ghost(before), Ghost(opened), Ghost(toks@));
    p
}

/// `@type{key, field = value, ...}` or `@string{name = value}`; `string`
/// selects the node kind. The closing delimiter is consumed if present.
fn parse_entry(text: &Vec<char>, toks: &Vec<Token>, nodes: &mut Vec<Node>, pos: usize, string: bool) -> (r: usize)
    requires
        toks@[pos as int].kind == TokenKind::EntryType,
        step_pre(old(nodes)@, pos as int, toks@.len()),
        kinds_ok(old(nodes)@, toks@),
        pos < toks@.len(),
        tokens_in(text@, toks@),
        room(old(nodes)@.len() as int, toks@.len() as int, pos as int),
    ensures
        (final(nodes)@, r as int) == bib_entry(toks@, old(nodes)@, pos as int, string),
        step_ok(old(nodes)@, final(nodes)@, pos as int, r as int, toks@.len()),
        kinds_ok(final(nodes)@, toks@),
        pos < r,
        final(nodes)@.len() + 1 <= old(nodes)@.len() + 2 * (r - pos),
{
    let ghost ntok = toks@.len();
    let ghost before = nodes@;
    let kind = if string { NodeKind::StringDef } else { NodeKind::Entry };
    let i = open_node(nodes, kind, pos, Ghost(ntok), Ghost(toks@));
    let ghost opened = nodes@;
    let mut p = pos + 1;
    let q = skip_trivia(toks, p);
    if q < toks.len() && (toks[q].kind == TokenKind::LCurly || toks[q].kind == TokenKind::LParen) {
        p = q + 1;
        if !string {
            let q2 = skip_trivia(toks, p);
            if q2 < toks.len() && toks[q2].kind == TokenKind::Word {
                p = q2 + 1;
            }
        }
        let ghost p_start = p as int;
        loop
            invariant_except_break
                bib_entry_loop(toks@, nodes@, p as int) == bib_entry_loop(toks@, opened, p_start),
            invariant
                pos < p <= toks@.len(),
                ntok == toks@.len(),
                opened.len() == i + 1,
                extends(opened, nodes@),
                fresh_within(i + 1, nodes@, pos as int, p as int),
                nodes_ok(nodes@, ntok),
                kinds_ok(nodes@, toks@),
                firsts_le(nodes@, p as int),
                nodes@.len() + 1 <= before.len() + 2 * (p - pos),
                room(before.len() as int, ntok as int, pos as int),
            ensures
                bib_entry_loop(toks@, opened, p_start) == (nodes@, p as int),
            decreases toks.len() - p,
        {
            let q3 = skip_trivia(toks, p);
            if q3 >= toks.len() {
                break;
            }
            let k = toks[q3].kind;
            if k == TokenKind::Word {
                let ghost b = nodes@;
                let ghost p0 = p;
                p = parse_field(toks, nodes, q3);
                proof {
                    lemma_chain(opened, b, nodes@, i + 1, pos as int, p0 as int, p as int, ntok);
                    lemma_chain(opened, b, nodes@, i + 1, pos as int, q3 as int, p as int, ntok);
                }
            } else if k == TokenKind::RCurly || k == TokenKind::RParen {
                p = q3 + 1;
                break;
            } else if k == TokenKind::EntryType {
                break;
            } else {
                p = q3 + 1;
            }
        }
    }
    finish_node(nodes, i, p, Ghost(ntok), Ghost(before), Ghost(opened), Ghost(toks@));
    p
}

/// Whether token `t` opens a `@string` definition.
fn is_string_type(text: &Vec<char>, toks: &Vec<Token>, t: usize) -> (r: bool)
    requires
        t < toks@.len(),
        tokens_in(text@, toks@),
    ensures
        r == is_string_token(text@, toks@, t as int),
{
    token_is(text, toks, t, "@string") || token_is(text, toks, t, "@String") || token_is(
        text,
        toks,
        t,
        "@STRING",
    )
}

/// Parses BibTeX tokens into nodes below a root that spans them all.
pub fn parse_bibtex(text: &Vec<char>, toks: &Vec<Token>) -> (nodes: Vec<Node>)
    requires
        tokens_in(text@, toks@),
        2 * toks@.len() + 4 <= usize::MAX,
    ensures
        nodes@ == bibtex_nodes(text@, toks@),
        nodes_ok(nodes@, toks@.len()),
        nodes@.len() >= 1,
        kinds_ok(nodes@, toks@),
        nodes@[0].kind == NodeKind::Root,
        nodes@[0].first == 0,
        nodes@[0].last == toks@.len(),
        nodes@[0].end == nodes@.len(),
{
    let ghost ntok = toks@.len();
    let mut nodes: Vec<Node> = Vec::new();
    proof {
        crate::tree::lemma_kinds_ok_empty(toks@);
    }
    let ghost before = nodes@;
    let i = open_node(&mut nodes, NodeKind::Root, 0, Ghost(ntok), Ghost(toks@));
    let ghost opened = nodes@;
    let mut p: usize = 0;
    while p < toks.len()
        invariant
            p <= toks@.len(),
            ntok == toks@.len(),
            tokens_in(text@, toks@),
            opened.len() == 1,
            extends(opened, nodes@),
            fresh_within(1, nodes@, 0, p as int),
            nodes_ok(nodes@, ntok),
            kinds_ok(nodes@, toks@),
            firsts_le(nodes@, p as int),
            nodes@.len() <= 1 + 2 * p,
            2 * ntok + 4 <= usize::MAX,
            bib_root_loop(text@, toks@, nodes@, p as int) == bib_root_loop(text@, toks@, opened, 0),
        decreases toks.len() - p,
    {
        let ghost b = nodes@;
        let ghost p0 = p;
        if toks[p].kind == TokenKind::EntryType {
            let string = is_string_type(text, toks, p);
            p = parse_entry(text, toks, &mut nodes, p, string);
        } else {
            let ghost b2 = nodes@;
            let j = open_node(&mut nodes, NodeKind::Junk, p, Ghost(ntok), Ghost(toks@));
            let ghost o2 = nodes@;
            let mut q = p + 1;
            while q < toks.len() && toks[q].kind != TokenKind::EntryType
                invariant
                    p < q <= toks@.len(),
                    junk_end(toks@, q as int) == junk_end(toks@, p + 1),
                decreases toks.len() - q,
            {
                q = q + 1;
            }
            finish_node(&mut nodes, j, q, Ghost(ntok), Ghost(b2), Ghost(o2), Ghost(toks@));
            p = q;
        }
        proof {
            lemma_chain(opened, b, nodes@, 1, 0, p0 as int, p as int, ntok);
        }
    }
    finish_node(&mut nodes, i, p, Ghost(ntok), Ghost(before), Ghost(opened), Ghost(toks@));
    nodes
}

} // verus!
