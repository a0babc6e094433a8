//! Recursive-descent parser for the LaTeX grammar. It never fails: on an
//! unexpected token it stops at the next synchronizing delimiter, and every
//! step consumes at least one token, so parsing always terminates.
use vstd::prelude::*;
use crate::lexer::{Token, TokenKind};
use crate::text::slice_eq;
use crate::tree::{
    Node, NodeKind, kinds_ok, opening_token, close_node, extends, firsts_le, fresh_within, lemma_chain, nodes_ok, open_node,
    step_ok, step_pre, tokens_in,
};

verus! {

/// Where a run of content stops.
#[derive(Clone, Copy, PartialEq, Eq, Structural)]
pub enum Context {
    Root,
    Curly,
    Brack,
    Env,
}

/// The node `kind` opened at token `pos`, at the end of `nodes`.
pub open spec fn open_spec(nodes: Seq<Node>, kind: NodeKind, pos: int) -> Seq<Node> {
    nodes.push(Node { kind, first: pos as usize, last: pos as usize, end: (nodes.len() + 1) as usize })
}

/// Node `i` closed at token `p`: it then owns every node after it.
pub open spec fn close_spec(nodes: Seq<Node>, i: int, p: int) -> Seq<Node> {
    nodes.update(i, Node { kind: nodes[i].kind, first: nodes[i].first, last: p as usize, end: nodes.len() as usize })
}

/// The first token at or after `p` that is not whitespace or a comment.
pub open spec fn trivia_end(toks: Seq<Token>, p: int) -> int
    decreases toks.len() - p,
{
    if 0 <= p < toks.len() && (toks[p].kind == TokenKind::Whitespace || toks[p].kind == TokenKind::Comment) {
        trivia_end(toks, p + 1)
    } else {
        p
    }
}

/// Whether token `p` is the command `name`.
pub open spec fn is_command_token(text: Seq<char>, toks: Seq<Token>, p: int, name: Seq<char>) -> bool {
    text.subrange(toks[p].start as int, toks[p].end as int) == name
}

/// The end of a run of text tokens from `p` on.
pub open spec fn text_run_end(toks: Seq<Token>, p: int, ctx: Context) -> int
    decreases toks.len() - p,
{
    if 0 <= p < toks.len() && is_text_token(toks[p].kind, ctx) {
        text_run_end(toks, p + 1, ctx)
    } else {
        p
    }
}

/// A node of one token.
pub open spec fn single_spec(nodes: Seq<Node>, kind: NodeKind, pos: int) -> (Seq<Node>, int) {
    (close_spec(open_spec(nodes, kind, pos), nodes.len() as int, pos + 1), pos + 1)
}

/// A text node from `pos`.
pub open spec fn latex_text(toks: Seq<Token>, nodes: Seq<Node>, pos: int, ctx: Context) -> (Seq<Node>, int) {
    let p = text_run_end(toks, pos + 1, ctx);
    (close_spec(open_spec(nodes, NodeKind::Text, pos), nodes.len() as int, p), p)
}

/// The grammar of LaTeX content: what `parse_content` adds to `nodes` from
/// token `p` on, and where it stops.
pub open spec fn latex_content(text: Seq<char>, toks: Seq<Token>, nodes: Seq<Node>, p: int, ctx: Context) -> (Seq<Node>, int)
    decreases toks.len() - p, 4int,
{
    if p < 0 || p >= toks.len() {
        (nodes, p)
    } else {
        let kind = toks[p].kind;
        let step: Option<(Seq<Node>, int)> = if kind == TokenKind::RCurly {
            if ctx == Context::Root {
                Some(single_spec(nodes, NodeKind::Error, p))
            } else {
                None
            }
        } else if kind == TokenKind::RBrack && ctx == Context::Brack {
            None
        } else if kind == TokenKind::CommandName {
            if is_command_token(text, toks, p, "\\end"@) {
                if ctx == Context::Env {
                    None
                } else {
                    Some(latex_command(text, toks, nodes, p))
                }
            } else if is_command_token(text, toks, p, "\\begin"@) {
                Some(latex_env(text, toks, nodes, p))
            } else {
                Some(latex_command(text, toks, nodes, p))
            }
        } else if kind == TokenKind::LCurly {
            Some(latex_group(text, toks, nodes, p))
        } else if is_text_token(kind, ctx) {
            Some(latex_text(toks, nodes, p, ctx))
        } else {
            Some(single_spec(nodes, NodeKind::Error, p))
        };
        match step {
            None => (nodes, p),
            Some(st) => if p < st.1 <= toks.len() {
                latex_content(text, toks, st.0, st.1, ctx)
            } else {
                st
            },
        }
    }
}

/// The groups that follow a command name, from token `p` on.
pub open spec fn latex_args(text: Seq<char>, toks: Seq<Token>, nodes: Seq<Node>, p: int) -> (Seq<Node>, int)
    decreases toks.len() - p, 3int,
{
    let q = trivia_end(toks, p);
    if p <= q < toks.len() && (toks[q].kind == TokenKind::LCurly || toks[q].kind == TokenKind::LBrack) {
        let st = latex_group(text, toks, nodes, q);
        if p < st.1 <= toks.len() {
            latex_args(text, toks, st.0, st.1)
        } else {
            st
        }
    } else {
        (nodes, p)
    }
}

/// A command at `pos`: its name and its argument groups.
pub open spec fn latex_command(text: Seq<char>, toks: Seq<Token>, nodes: Seq<Node>, pos: int) -> (Seq<Node>, int)
    decreases toks.len() - pos, 1int,
{
    if pos < 0 || pos >= toks.len() {
        (nodes, pos)
    } else {
        let st = latex_args(text, toks, open_spec(nodes, NodeKind::Command, pos), pos + 1);
        (close_spec(st.0, nodes.len() as int, st.1), st.1)
    }
}

/// A group at `pos`: its delimiters and content.
pub open spec fn latex_group(text: Seq<char>, toks: Seq<Token>, nodes: Seq<Node>, pos: int) -> (Seq<Node>, int)
    decreases toks.len() - pos, 2int,
{
    if pos < 0 || pos >= toks.len() {
        (nodes, pos)
    } else {
        let curly = toks[pos].kind == TokenKind::LCurly;
        let kind = if curly { NodeKind::CurlyGroup } else { NodeKind::BrackGroup };
        let ctx = if curly { Context::Curly } else { Context::Brack };
        let st = latex_content(text, toks, open_spec(nodes, kind, pos), pos + 1, ctx);
        let p = if st.1 < toks.len() && ((curly && toks[st.1].kind == TokenKind::RCurly) || (!curly && toks[st.1].kind == TokenKind::RBrack)) {
            st.1 + 1
        } else {
            st.1
        };
        (close_spec(st.0, nodes.len() as int, p), p)
    }
}

/// An environment at `pos`: `\begin{..}`, content, and `\end{..}` if present.
pub open spec fn latex_env(text: Seq<char>, toks: Seq<Token>, nodes: Seq<Node>, pos: int) -> (Seq<Node>, int)
    decreases toks.len() - pos, 2int,
{
    if pos < 0 || pos >= toks.len() {
        (nodes, pos)
    } else {
        let i = nodes.len() as int;
        let s1 = latex_command(text, toks, open_spec(nodes, NodeKind::Environment, pos), pos);
        if !(pos < s1.1 <= toks.len()) {
            (close_spec(s1.0, i, s1.1), s1.1)
        } else {
            let s2 = latex_content(text, toks, s1.0, s1.1, Context::Env);
            if s1.1 <= s2.1 < toks.len() && toks[s2.1].kind == TokenKind::CommandName && is_command_token(text, toks, s2.1, "\\end"@) {
                let s3 = latex_command(text, toks, s2.0, s2.1);
                (close_spec(s3.0, i, s3.1), s3.1)
            } else {
                (close_spec(s2.0, i, s2.1), s2.1)
            }
        }
    }
}

/// The nodes of a LaTeX document with tokens `toks`: a root over all of
/// them, holding its content.
pub open spec fn latex_nodes(text: Seq<char>, toks: Seq<Token>) -> Seq<Node> {
    let st = latex_content(text, toks, open_spec(Seq::empty(), NodeKind::Root, 0), 0, Context::Root);
    close_spec(st.0, 0, st.1)
}

/// Enough room in the arena for every node that the tokens from `pos` on can open.
pub open spec fn room(nodes_len: int, ntok: int, pos: int) -> bool {
    nodes_len + 2 * (ntok - pos) + 2 <= usize::MAX && ntok < usize::MAX
}

/// Like `room`, for a step that opens one node fewer than it consumes tokens.
pub open spec fn room1(nodes_len: int, ntok: int, pos: int) -> bool {
    nodes_len + 2 * (ntok - pos) + 1 <= usize::MAX && ntok < usize::MAX
}

/// The first token at or after `p` that is not whitespace or a comment.
pub(crate) fn skip_trivia(toks: &Vec<Token>, p: usize) -> (q: usize)
    requires
        p <= toks@.len(),
    ensures
        p <= q <= toks@.len(),
        q as int == trivia_end(toks@, p as int),
{
    let mut q = p;
    while q < toks.len() && is_trivia(toks[q].kind)
        invariant
            p <= q <= toks@.len(),
            trivia_end(toks@, q as int) == trivia_end(toks@, p as int),
        decreases toks.len() - q,
    {
        q = q + 1;
    }
    q
}

/// Whether token `t` is the command `name` (written with its backslash).
pub fn token_is(text: &Vec<char>, toks: &Vec<Token>, t: usize, name: &str) -> (r: bool)
    requires
        t < toks@.len(),
        tokens_in(text@, toks@),
    ensures
        r == (text@.subrange(toks@[t as int].start as int, toks@[t as int].end as int) == name@),
{
    let tok = toks[t];
    let lit = crate::text::to_chars(name);
    slice_eq(text, tok.start, tok.end, &lit)
}

pub open spec fn is_text_token(kind: TokenKind, ctx: Context) -> bool {
    match kind {
        TokenKind::Word | TokenKind::Whitespace | TokenKind::Comment | TokenKind::Comma
        | TokenKind::Eq | TokenKind::Dollar | TokenKind::LBrack => true,
        TokenKind::RBrack => ctx != Context::Brack,
        _ => false,
    }
}

fn is_text_token_exec(kind: TokenKind, ctx: Context) -> (r: bool)
    ensures
        r == is_text_token(kind, ctx),
{
    match kind {
        TokenKind::Word | TokenKind::Whitespace | TokenKind::Comment | TokenKind::Comma
        | TokenKind::Eq | TokenKind::Dollar | TokenKind::LBrack => true,
        TokenKind::RBrack => ctx != Context::Brack,
        _ => false,
    }
}

pub(crate) fn is_trivia(kind: TokenKind) -> (r: bool)
    ensures
        r == (kind == TokenKind::Whitespace || kind == TokenKind::Comment),
{
    kind == TokenKind::Whitespace || kind == TokenKind::Comment
}

/// A node over the single token at `pos`.
pub(crate) fn parse_single(toks: &Vec<Token>, nodes: &mut Vec<Node>, kind: NodeKind, pos: usize) -> (r: usize)
    requires
        step_pre(old(nodes)@, pos as int, toks@.len()),
        kinds_ok(old(nodes)@, toks@),
        pos < toks@.len(),
        opening_token(kind).is_some() ==> toks@[pos as int].kind == opening_token(kind).unwrap(),
        room1(old(nodes)@.len() as int, toks@.len() as int, pos as int),
    ensures
        r == pos + 1,
        (final(nodes)@, r as int) == single_spec(old(nodes)@, kind, pos as int),
        step_ok(old(nodes)@, final(nodes)@, pos as int, r as int, toks@.len()),
        kinds_ok(final(nodes)@, toks@),
        final(nodes)@.len() == old(nodes)@.len() + 1,
{
    let ghost ntok = toks@.len();
    let i = open_node(nodes, kind, pos, Ghost(ntok), Ghost(toks@));
    let ghost opened = nodes@;
    close_node(nodes, i, pos + 1, Ghost(ntok), Ghost(toks@));
    assert(extends(old(nodes)@, nodes@)) by {
        assert forall|k: int| 0 <= k < old(nodes)@.len() implies #[trigger] nodes@[k] == old(nodes)@[k] by {
            assert(nodes@[k] == opened[k]);
        }
    }
    pos + 1
}

/// A run of plain text tokens.
fn parse_text(toks: &Vec<Token>, nodes: &mut Vec<Node>, pos: usize, ctx: Context) -> (r: usize)
    requires
        step_pre(old(nodes)@, pos as int, toks@.len()),
        kinds_ok(old(nodes)@, toks@),
        pos < toks@.len(),
        room(old(nodes)@.len() as int, toks@.len() as int, pos as int),
    ensures
        (final(nodes)@, r as int) == latex_text(toks@, old(nodes)@, pos as int, ctx),
        step_ok(old(nodes)@, final(nodes)@, pos as int, r as int, toks@.len()),
        kinds_ok(final(nodes)@, toks@),
        pos < r,
        final(nodes)@.len() == old(nodes)@.len() + 1,
{
    let ghost ntok = toks@.len();
    let i = open_node(nodes, NodeKind::Text, pos, Ghost(ntok), Ghost(toks@));
    let ghost opened = nodes@;
    let mut p = pos + 1;
    while p < toks.len() && is_text_token_exec(toks[p].kind, ctx)
        invariant
            pos < p <= toks@.len(),
            text_run_end(toks@, p as int, ctx) == text_run_end(toks@, pos + 1, ctx),
        decreases toks.len() - p,
    {
        p = p + 1;
    }
    close_node(nodes, i, p, Ghost(ntok), Ghost(toks@));
    assert(extends(old(nodes)@, nodes@)) by {
        assert forall|k: int| 0 <= k < old(nodes)@.len() implies #[trigger] nodes@[k] == old(nodes)@[k] by {
            assert(nodes@[k] == opened[k]);
        }
    }
    p
}

/// A command name with the groups that follow it as arguments.
fn parse_command(text: &Vec<char>, toks: &Vec<Token>, nodes: &mut Vec<Node>, pos: usize) -> (r: usize)
    requires
        toks@[pos as int].kind == TokenKind::CommandName,
        step_pre(old(nodes)@, pos as int, toks@.len()),
        kinds_ok(old(nodes)@, toks@),
        pos < toks@.len(),
        tokens_in(text@, toks@),
        room1(old(nodes)@.len() as int, toks@.len() as int, pos as int),
    ensures
        (final(nodes)@, r as int) == latex_command(text@, toks@, old(nodes)@, pos as int),
        step_ok(old(nodes)@, final(nodes)@, pos as int, r as int, toks@.len()),
        kinds_ok(final(nodes)@, toks@),
        pos < r,
        final(nodes)@.len() + 1 <= old(nodes)@.len() + 2 * (r - pos),
    decreases toks@.len() - pos, 1nat,
{
    let ghost ntok = toks@.len();
    let i = open_node(nodes, NodeKind::Command, pos, Ghost(ntok), Ghost(toks@));
    let ghost opened = nodes@;
    let mut p = pos + 1;
    loop
        invariant
            pos < p <= toks@.len(),
            ntok == toks@.len(),
            tokens_in(text@, toks@),
            i + 1 == opened.len(),
            extends(opened, nodes@),
            fresh_within(i + 1, nodes@, pos as int, p as int),
            nodes_ok(nodes@, ntok),
            kinds_ok(nodes@, toks@),
            firsts_le(nodes@, p as int),
            nodes@.len() + 1 <= old(nodes)@.len() + 2 * (p - pos),
            room1(old(nodes)@.len() as int, ntok as int, pos as int),
            latex_args(text@, toks@, nodes@, p as int) == latex_args(text@, toks@, opened, pos + 1),
        ensures
            latex_args(text@, toks@, nodes@, p as int) == (nodes@, p as int),
            latex_args(text@, toks@, nodes@, p as int) == latex_args(text@, toks@, opened, pos + 1),
            pos < p <= toks@.len(),
            extends(opened, nodes@),
            fresh_within(i + 1, nodes@, pos as int, p as int),
            nodes_ok(nodes@, ntok),
            kinds_ok(nodes@, toks@),
            firsts_le(nodes@, p as int),
            nodes@.len() + 1 <= old(nodes)@.len() + 2 * (p - pos),
            i + 1 == opened.len(),
        decreases toks.len() - p,
    {
        let q = skip_trivia(toks, p);
        if q < toks.len() && (toks[q].kind == TokenKind::LCurly || toks[q].kind == TokenKind::LBrack) {
            let ghost before = nodes@;
            let ghost p0 = p;
            p = parse_group(text, toks, nodes, q);
            proof {
                lemma_chain(opened, before, nodes@, i + 1, pos as int, p0 as int, p as int, ntok);
                lemma_chain(opened, before, nodes@, i + 1, pos as int, q as int, p as int, ntok);
            }
        } else {
            break;
        }
    }
    assert(nodes@[i as int] == opened[i as int]);
    close_node(nodes, i, p, Ghost(ntok), Ghost(toks@));
    assert(extends(old(nodes)@, nodes@)) by {
        assert forall|k: int| 0 <= k < old(nodes)@.len() implies #[trigger] nodes@[k] == old(nodes)@[k] by {
            assert(opened[k] == old(nodes)@[k]);
        }
    }
    p
}

/// A curly or bracket group: the opening delimiter, content, and the closing
/// delimiter if present.
fn parse_group(text: &Vec<char>, toks: &Vec<Token>, nodes: &mut Vec<Node>, pos: usize) -> (r: usize)
    requires
        step_pre(old(nodes)@, pos as int, toks@.len()),
        kinds_ok(old(nodes)@, toks@),
        pos < toks@.len(),
        toks@[pos as int].kind == TokenKind::LCurly || toks@[pos as int].kind == TokenKind::LBrack,
        tokens_in(text@, toks@),
        room(old(nodes)@.len() as int, toks@.len() as int, pos as int),
    ensures
        (final(nodes)@, r as int) == latex_group(text@, toks@, old(nodes)@, pos as int),
        step_ok(old(nodes)@, final(nodes)@, pos as int, r as int, toks@.len()),
        kinds_ok(final(nodes)@, toks@),
        pos < r,
        final(nodes)@.len() + 1 <= old(nodes)@.len() + 2 * (r - pos),
    decreases toks@.len() - pos, 2nat,
{
    let ghost ntok = toks@.len();
    let curly = toks[pos].kind == TokenKind::LCurly;
    let kind = if curly { NodeKind::CurlyGroup } else { NodeKind::BrackGroup };
    let ctx = if curly { Context::Curly } else { Context::Brack };
    let i = open_node(nodes, kind, pos, Ghost(ntok), Ghost(toks@));
    let ghost opened = nodes@;
    let mut p = parse_content(text, toks, nodes, pos + 1, ctx);
    assert(fresh_within(i + 1, nodes@, pos as int, p as int)) by {
        lemma_chain(opened, opened, nodes@, i + 1, pos as int, pos + 1, p as int, ntok);
    }
    if p < toks.len() {
        let k = toks[p].kind;
        if (curly && k == TokenKind::RCurly) || (!curly && k == TokenKind::RBrack) {
            p = p + 1;
        }
    }
    assert(nodes@[i as int] == opened[i as int]);
    close_node(nodes, i, p, Ghost(ntok), Ghost(toks@));
    assert(extends(old(nodes)@, nodes@)) by {
        assert forall|k: int| 0 <= k < old(nodes)@.len() implies #[trigger] nodes@[k] == old(nodes)@[k] by {
            assert(opened[k] == old(nodes)@[k]);
        }
    }
    p
}

/// `\begin{..}`, the content, and the `\end{..}` that closes it if present.
/// A mismatched name is accepted: the environment still closes.
fn parse_environment(text: &Vec<char>, toks: &Vec<Token>, nodes: &mut Vec<Node>, pos: usize) -> (r: usize)
    requires
        toks@[pos as int].kind == TokenKind::CommandName,
        step_pre(old(nodes)@, pos as int, toks@.len()),
        kinds_ok(old(nodes)@, toks@),
        pos < toks@.len(),
        tokens_in(text@, toks@),
        room(old(nodes)@.len() as int, toks@.len() as int, pos as int),
    ensures
        (final(nodes)@, r as int) == latex_env(text@, toks@, old(nodes)@, pos as int),
        step_ok(old(nodes)@, final(nodes)@, pos as int, r as int, toks@.len()),
        kinds_ok(final(nodes)@, toks@),
        pos < r,
        final(nodes)@.len() <= old(nodes)@.len() + 2 * (r - pos),
    decreases toks@.len() - pos, 2nat,
{
    let ghost ntok = toks@.len();
    let i = open_node(nodes, NodeKind::Environment, pos, Ghost(ntok), Ghost(toks@));
    let ghost opened = nodes@;
    let p1 = parse_command(text, toks, nodes, pos);
    let ghost n1 = nodes@;
    proof {
        lemma_chain(opened, opened, n1, i + 1, pos as int, pos as int, p1 as int, ntok);
    }
    let mut p = parse_content(text, toks, nodes, p1, Context::Env);
    let ghost n2 = nodes@;
    let ghost p2 = p;
    proof {
        lemma_chain(opened, n1, n2, i + 1, pos as int, p1 as int, p as int, ntok);
    }
    if p < toks.len() && toks[p].kind == TokenKind::CommandName && token_is(text, toks, p, "\\end") {
        p = parse_command(text, toks, nodes, p);
        proof {
            lemma_chain(opened, n2, nodes@, i + 1, pos as int, p2 as int, p as int, ntok);
        }
    }
    assert(nodes@[i as int] == opened[i as int]);
    close_node(nodes, i, p, Ghost(ntok), Ghost(toks@));
    assert(extends(old(nodes)@, nodes@)) by {
        assert forall|k: int| 0 <= k < old(nodes)@.len() implies #[trigger] nodes@[k] == old(nodes)@[k] by {
            assert(opened[k] == old(nodes)@[k]);
        }
    }
    p
}

/// Content up to the delimiter that ends `ctx` (not consumed) or the end of
/// the input.
fn parse_content(text: &Vec<char>, toks: &Vec<Token>, nodes: &mut Vec<Node>, pos: usize, ctx: Context) -> (r: usize)
    requires
        step_pre(old(nodes)@, pos as int, toks@.len()),
        kinds_ok(old(nodes)@, toks@),
        tokens_in(text@, toks@),
        room(old(nodes)@.len() as int, toks@.len() as int, pos as int),
    ensures
        (final(nodes)@, r as int) == latex_content(text@, toks@, old(nodes)@, pos as int, ctx),
        step_ok(old(nodes)@, final(nodes)@, pos as int, r as int, toks@.len()),
        kinds_ok(final(nodes)@, toks@),
        final(nodes)@.len() <= old(nodes)@.len() + 2 * (r - pos),
        ctx == Context::Root ==> r == toks@.len(),
    decreases toks@.len() - pos, 3nat,
{
    let ghost ntok = toks@.len();
    let ghost start = nodes@;
    let mut p = pos;
    while p < toks.len()
        invariant
            pos <= p <= toks@.len(),
            ntok == toks@.len(),
            tokens_in(text@, toks@),
            extends(start, nodes@),
            fresh_within(start.len() as int, nodes@, pos as int, p as int),
            nodes_ok(nodes@, ntok),
            kinds_ok(nodes@, toks@),
            firsts_le(nodes@, p as int),
            nodes@.len() <= start.len() + 2 * (p - pos),
            room(start.len() as int, ntok as int, pos as int),
            latex_content(text@, toks@, nodes@, p as int, ctx) == latex_content(text@, toks@, start, pos as int, ctx),
        ensures
            ctx == Context::Root ==> p == toks@.len(),
            latex_content(text@, toks@, nodes@, p as int, ctx) == (nodes@, p as int),
            latex_content(text@, toks@, nodes@, p as int, ctx) == latex_content(text@, toks@, start, pos as int, ctx),
            pos <= p <= toks@.len(),
            extends(start, nodes@),
            fresh_within(start.len() as int, nodes@, pos as int, p as int),
            nodes_ok(nodes@, ntok),
            kinds_ok(nodes@, toks@),
            firsts_le(nodes@, p as int),
            nodes@.len() <= start.len() + 2 * (p - pos),
        decreases toks.len() - p,
    {
        let kind = toks[p].kind;
        let ghost before = nodes@;
        let ghost p0 = p;
        if kind == TokenKind::RCurly {
            if ctx == Context::Root {
                p = parse_single(toks, nodes, NodeKind::Error, p);
            } else {
                break;
            }
        } else if kind == TokenKind::RBrack && ctx == Context::Brack {
            break;
        } else if kind == TokenKind::CommandName {
            if token_is(text, toks, p, "\\end") {
                if ctx == Context::Env {
                    break;
                }
                p = parse_command(text, toks, nodes, p);
            } else if token_is(text, toks, p, "\\begin") {
                p = parse_environment(text, toks, nodes, p);
            } else {
                p = parse_command(text, toks, nodes, p);
            }
        } else if kind == TokenKind::LCurly {
            p = parse_group(text, toks, nodes, p);
        } else if is_text_token_exec(kind, ctx) {
            p = parse_text(toks, nodes, p, ctx);
        } else {
            p = parse_single(toks, nodes, NodeKind::Error, p);
        }
        proof {
            lemma_chain(start, before, nodes@, start.len() as int, pos as int, p0 as int, p as int, ntok);
        }
    }
    p
}

/// Parses LaTeX tokens into nodes below a root that spans them all.
pub fn parse_latex(text: &Vec<char>, toks: &Vec<Token>) -> (nodes: Vec<Node>)
    requires
        tokens_in(text@, toks@),
        2 * toks@.len() + 4 <= usize::MAX,
    ensures
        nodes_ok(nodes@, toks@.len()),
        nodes@.len() >= 1,
        kinds_ok(nodes@, toks@),
        nodes@ == latex_nodes(text@, toks@),
        nodes@[0].kind == NodeKind::Root,
        nodes@[0].first == 0,
        nodes@[0].last == toks@.len(),
        nodes@[0].end == nodes@.len(),
{
    let ghost ntok = toks@.len();
    let mut nodes: Vec<Node> = Vec::new();
    proof {
        crate::tree::lemma_kinds_ok_empty(toks@);
    }
    let i = open_node(&mut nodes, NodeKind::Root, 0, Ghost(ntok), Ghost(toks@));
    let ghost opened = nodes@;
    let p = parse_content(text, toks, &mut nodes, 0, Context::Root);
    proof {
        lemma_chain(opened, opened, nodes@, 1, 0, 0, p as int, ntok);
    }
    assert(nodes@[0] == opened[0]);
    close_node(&mut nodes, i, p, Ghost(ntok), Ghost(toks@));
    nodes
}

} // verus!
