//! Tokenizers for the two grammars. Every character of the input belongs to
//! exactly one token, and the tokens' texts concatenate to the input.
use vstd::prelude::*;

verus! {

/// The language a document is written in; it selects the grammar.
#[derive(Debug, Clone, Copy, PartialEq, Eq, Structural)]
pub enum Language {
    Latex,
    Bibtex,
    Other,
}

#[derive(Debug, Clone, Copy, PartialEq, Eq, Structural)]
pub enum TokenKind {
    Whitespace,
    Comment,
    Word,
    CommandName,
    LCurly,
    RCurly,
    LBrack,
    RBrack,
    LParen,
    RParen,
    Comma,
    Eq,
    Dollar,
    Hash,
    Quote,
    EntryType,
}

/// A token: its kind and the half-open character range it spans.
#[derive(Debug, Clone, Copy, PartialEq, Eq, Structural)]
pub struct Token {
    pub kind: TokenKind,
    pub start: usize,
    pub end: usize,
}

/// The character classes that a token may extend over.
#[derive(Clone, Copy, PartialEq, Eq, Structural)]
pub enum CharClass {
    Letter,
    Space,
    NotNewline,
    LatexWord,
    BibtexWord,
}

pub open spec fn is_letter(c: char) -> bool {
    ('a' <= c && c <= 'z') || ('A' <= c && c <= 'Z') || c == '@'
}

pub open spec fn is_space(c: char) -> bool {
    c == ' ' || c == '\t' || c == '\n' || c == '\r'
}

pub open spec fn is_latex_delim(c: char) -> bool {
    c == '\\' || c == '{' || c == '}' || c == '[' || c == ']' || c == ',' || c == '='
        || c == '$' || c == '%'
}

pub open spec fn is_bibtex_delim(c: char) -> bool {
    c == '@' || c == '{' || c == '}' || c == '(' || c == ')' || c == ',' || c == '='
        || c == '#' || c == '"'
}

pub open spec fn in_class(c: char, cls: CharClass) -> bool {
    match cls {
        CharClass::Letter => is_letter(c),
        CharClass::Space => is_space(c),
        CharClass::NotNewline => c != '\n',
        CharClass::LatexWord => !is_space(c) && !is_latex_delim(c),
        CharClass::BibtexWord => !is_space(c) && !is_bibtex_delim(c),
    }
}

/// The end of the longest run of characters of class `cls` starting at `pos`.
pub open spec fn scan_end(text: Seq<char>, pos: int, cls: CharClass) -> int
    decreases text.len() - pos,
{
    if 0 <= pos < text.len() && in_class(text[pos], cls) {
        scan_end(text, pos + 1, cls)
    } else {
        pos
    }
}

/// The kind and end of the LaTeX token that starts at `pos`.
pub open spec fn latex_token_at(text: Seq<char>, pos: int) -> (TokenKind, int) {
    let c = text[pos];
    if c == '\\' {
        if pos + 1 < text.len() && is_letter(text[pos + 1]) {
            (TokenKind::CommandName, scan_end(text, pos + 1, CharClass::Letter))
        } else if pos + 1 < text.len() {
            (TokenKind::CommandName, pos + 2)
        } else {
            (TokenKind::CommandName, pos + 1)
        }
    } else if c == '{' {
        (TokenKind::LCurly, pos + 1)
    } else if c == '}' {
        (TokenKind::RCurly, pos + 1)
    } else if c == '[' {
        (TokenKind::LBrack, pos + 1)
    } else if c == ']' {
        (TokenKind::RBrack, pos + 1)
    } else if c == ',' {
        (TokenKind::Comma, pos + 1)
    } else if c == '=' {
        (TokenKind::Eq, pos + 1)
    } else if c == '$' {
        (TokenKind::Dollar, pos + 1)
    } else if c == '%' {
        (TokenKind::Comment, scan_end(text, pos, CharClass::NotNewline))
    } else if is_space(c) {
        (TokenKind::Whitespace, scan_end(text, pos, CharClass::Space))
    } else {
        (TokenKind::Word, scan_end(text, pos, CharClass::LatexWord))
    }
}

/// The kind and end of the BibTeX token that starts at `pos`.
pub open spec fn bibtex_token_at(text: Seq<char>, pos: int) -> (TokenKind, int) {
    let c = text[pos];
    if c == '@' {
        (TokenKind::EntryType, scan_end(text, pos + 1, CharClass::Letter))
    } else if c == '{' {
        (TokenKind::LCurly, pos + 1)
    } else if c == '}' {
        (TokenKind::RCurly, pos + 1)
    } else if c == '(' {
        (TokenKind::LParen, pos + 1)
    } else if c == ')' {
        (TokenKind::RParen, pos + 1)
    } else if c == ',' {
        (TokenKind::Comma, pos + 1)
    } else if c == '=' {
        (TokenKind::Eq, pos + 1)
    } else if c == '#' {
        (TokenKind::Hash, pos + 1)
    } else if c == '"' {
        (TokenKind::Quote, pos + 1)
    } else if is_space(c) {
        (TokenKind::Whitespace, scan_end(text, pos, CharClass::Space))
    } else {
        (TokenKind::Word, scan_end(text, pos, CharClass::BibtexWord))
    }
}

pub open spec fn token_at(text: Seq<char>, pos: int, lang: Language) -> (TokenKind, int) {
    match lang {
        Language::Bibtex => bibtex_token_at(text, pos),
        _ => latex_token_at(text, pos),
    }
}

/// The tokens tile `[0, len)`: each starts where the previous one ended,
/// none is empty, and the last ends at `len`.
pub open spec fn tiles(toks: Seq<Token>, len: nat) -> bool {
    &&& forall|i: int|
        0 <= i < toks.len() ==> #[trigger] toks[i].start < toks[i].end
    &&& forall|i: int|
        0 < i < toks.len() ==> #[trigger] toks[i].start == toks[i - 1].end
    &&& toks.len() == 0 ==> len == 0
    &&& toks.len() > 0 ==> toks[0].start == 0 && toks[toks.len() - 1].end == len
}

/// `toks` is the tokenization of `text` under the grammar of `lang`.
pub open spec fn lexed(text: Seq<char>, toks: Seq<Token>, lang: Language) -> bool {
    &&& tiles(toks, text.len())
    &&& forall|i: int|
        0 <= i < toks.len() ==> (#[trigger] toks[i].kind, toks[i].end as int) == token_at(
            text,
            toks[i].start as int,
            lang,
        )
}

/// The texts of the tokens, concatenated in order.
pub open spec fn token_texts(text: Seq<char>, toks: Seq<Token>) -> Seq<char>
    decreases toks.len(),
{
    if toks.len() == 0 {
        Seq::empty()
    } else {
        let t = toks[toks.len() - 1];
        token_texts(text, toks.drop_last()) + text.subrange(t.start as int, t.end as int)
    }
}

proof fn lemma_scan_end_bounds(text: Seq<char>, pos: int, cls: CharClass)
    requires
        0 <= pos <= text.len(),
    ensures
        pos <= scan_end(text, pos, cls) <= text.len(),
    decreases text.len() - pos,
{
    if pos < text.len() && in_class(text[pos], cls) {
        lemma_scan_end_bounds(text, pos + 1, cls);
    }
}

proof fn lemma_token_at_bounds(text: Seq<char>, pos: int, lang: Language)
    requires
        0 <= pos < text.len(),
    ensures
        pos < token_at(text, pos, lang).1 <= text.len(),
{
    lemma_scan_end_bounds(text, pos + 1, CharClass::Letter);
    lemma_scan_end_bounds(text, pos + 1, CharClass::NotNewline);
    lemma_scan_end_bounds(text, pos + 1, CharClass::Space);
    lemma_scan_end_bounds(text, pos + 1, CharClass::LatexWord);
    lemma_scan_end_bounds(text, pos + 1, CharClass::BibtexWord);
    lemma_scan_end_bounds(text, pos, CharClass::NotNewline);
    lemma_scan_end_bounds(text, pos, CharClass::Space);
    lemma_scan_end_bounds(text, pos, CharClass::LatexWord);
    lemma_scan_end_bounds(text, pos, CharClass::BibtexWord);
}

fn in_class_exec(c: char, cls: CharClass) -> (r: bool)
    ensures
        r == in_class(c, cls),
{
    match cls {
        CharClass::Letter => ('a' <= c && c <= 'z') || ('A' <= c && c <= 'Z') || c == '@',
        CharClass::Space => c == ' ' || c == '\t' || c == '\n' || c == '\r',
        CharClass::NotNewline => c != '\n',
        CharClass::LatexWord => !(c == ' ' || c == '\t' || c == '\n' || c == '\r') && !(c == '\\'
            || c == '{' || c == '}' || c == '[' || c == ']' || c == ',' || c == '=' || c == '$'
            || c == '%'),
        CharClass::BibtexWord => !(c == ' ' || c == '\t' || c == '\n' || c == '\r') && !(c == '@'
            || c == '{' || c == '}' || c == '(' || c == ')' || c == ',' || c == '=' || c == '#'
            || c == '"'),
    }
}

fn scan(text: &Vec<char>, pos: usize, cls: CharClass) -> (r: usize)
    requires
        pos <= text@.len(),
    ensures
        r == scan_end(text@, pos as int, cls),
{
    let mut i = pos;
    while i < text.len() && in_class_exec(text[i], cls)
        invariant
            pos <= i <= text@.len(),
            scan_end(text@, i as int, cls) == scan_end(text@, pos as int, cls),
        decreases text.len() - i,
    {
        i = i + 1;
    }
    i
}

fn next_token(text: &Vec<char>, pos: usize, lang: Language) -> (r: (TokenKind, usize))
    requires
        pos < text@.len(),
    ensures
        (r.0, r.1 as int) == token_at(text@, pos as int, lang),
{
    let c = text[pos];
    let n = text.len();
    match lang {
        Language::Bibtex => {
            if c == '@' {
                (TokenKind::EntryType, scan(text, pos + 1, CharClass::Letter))
            } else if c == '{' {
                (TokenKind::LCurly, pos + 1)
            } else if c == '}' {
                (TokenKind::RCurly, pos + 1)
            } else if c == '(' {
                (TokenKind::LParen, pos + 1)
            } else if c == ')' {
                (TokenKind::RParen, pos + 1)
            } else if c == ',' {
                (TokenKind::Comma, pos + 1)
            } else if c == '=' {
                (TokenKind::Eq, pos + 1)
            } else if c == '#' {
                (TokenKind::Hash, pos + 1)
            } else if c == '"' {
                (TokenKind::Quote, pos + 1)
            } else if in_class_exec(c, CharClass::Space) {
                (TokenKind::Whitespace, scan(text, pos, CharClass::Space))
            } else {
                (TokenKind::Word, scan(text, pos, CharClass::BibtexWord))
            }
        },
        _ => {
            if c == '\\' {
                if pos + 1 < n && in_class_exec(text[pos + 1], CharClass::Letter) {
                    (TokenKind::CommandName, scan(text, pos + 1, CharClass::Letter))
                } else if pos + 1 < n {
                    (TokenKind::CommandName, pos + 2)
                } else {
                    (TokenKind::CommandName, pos + 1)
                }
            } else if c == '{' {
                (TokenKind::LCurly, pos + 1)
            } else if c == '}' {
                (TokenKind::RCurly, pos + 1)
            } else if c == '[' {
                (TokenKind::LBrack, pos + 1)
            } else if c == ']' {
                (TokenKind::RBrack, pos + 1)
            } else if c == ',' {
                (TokenKind::Comma, pos + 1)
            } else if c == '=' {
                (TokenKind::Eq, pos + 1)
            } else if c == '$' {
                (TokenKind::Dollar, pos + 1)
            } else if c == '%' {
                (TokenKind::Comment, scan(text, pos, CharClass::NotNewline))
            } else if in_class_exec(c, CharClass::Space) {
                (TokenKind::Whitespace, scan(text, pos, CharClass::Space))
            } else {
                (TokenKind::Word, scan(text, pos, CharClass::LatexWord))
            }
        },
    }
}

/// Splits `text` into tokens under the grammar of `lang`. Never fails: every
/// character lands in some token.
pub fn tokenize(text: &Vec<char>, lang: Language) -> (toks: Vec<Token>)
    ensures
        lexed(text@, toks@, lang),
{
    let mut toks: Vec<Token> = Vec::new();
    let mut pos: usize = 0;
    while pos < text.len()
        invariant
            pos <= text@.len(),
            tiles(toks@, pos as nat),
            forall|i: int|
                0 <= i < toks@.len() ==> (#[trigger] toks@[i].kind, toks@[i].end as int)
                    == token_at(text@, toks@[i].start as int, lang),
        decreases text.len() - pos,
    {
        proof {
            lemma_token_at_bounds(text@, pos as int, lang);
        }
        let (kind, end) = next_token(text, pos, lang);
        toks.push(Token { kind, start: pos, end });
        pos = end;
    }
    toks
}

proof fn lemma_token_texts_prefix(text: Seq<char>, toks: Seq<Token>, k: int)
    requires
        tiles(toks, text.len()),
        1 <= k <= toks.len(),
    ensures
        token_texts(text, toks.take(k)) == text.subrange(0, toks[k - 1].end as int),
    decreases k,
{
    let pre = toks.take(k);
    assert(pre.drop_last() =~= toks.take(k - 1));
    assert(toks[k - 1].start < toks[k - 1].end);
    if k == 1 {
        assert(token_texts(text, toks.take(0)) =~= Seq::<char>::empty());
        assert(text.subrange(0, toks[0].end as int) =~= Seq::<char>::empty() + text.subrange(
            toks[0].start as int,
            toks[0].end as int,
        ));
    } else {
        lemma_token_texts_prefix(text, toks, k - 1);
        lemma_tile_ends_bounded(toks, text.len(), k - 1);
        assert(toks[k - 1].start == toks[k - 2].end);
        assert(text.subrange(0, toks[k - 1].end as int) =~= text.subrange(
            0,
            toks[k - 2].end as int,
        ) + text.subrange(toks[k - 1].start as int, toks[k - 1].end as int));
    }
}

/// Token ends never decrease and stay within the tiled length.
proof fn lemma_tile_ends_bounded(toks: Seq<Token>, len: nat, k: int)
    requires
        tiles(toks, len),
        0 <= k < toks.len(),
    ensures
        toks[k].end <= len,
        forall|j: int| 0 <= j <= k ==> #[trigger] toks[j].end <= toks[k].end,
        forall|j: int| k < j < toks.len() ==> #[trigger] toks[j].start >= toks[k].end,
    decreases toks.len() - k,
{
    if k + 1 < toks.len() {
        lemma_tile_ends_bounded(toks, len, k + 1);
        assert(toks[k + 1].start == toks[k].end);
    }
    lemma_tile_ends_monotone(toks, len, k);
}

proof fn lemma_tile_ends_monotone(toks: Seq<Token>, len: nat, k: int)
    requires
        tiles(toks, len),
        0 <= k < toks.len(),
    ensures
        forall|j: int| 0 <= j <= k ==> #[trigger] toks[j].end <= toks[k].end,
    decreases k,
{
    if k > 0 {
        lemma_tile_ends_monotone(toks, len, k - 1);
        assert(toks[k].start == toks[k - 1].end);
    }
}

/// Concatenating the texts of a tokenization reproduces the text exactly.
pub proof fn lemma_tokens_lossless(text: Seq<char>, toks: Seq<Token>, lang: Language)
    requires
        lexed(text, toks, lang),
    ensures
        token_texts(text, toks) == text,
{
    if toks.len() == 0 {
        assert(text =~= Seq::<char>::empty());
    } else {
        lemma_token_texts_prefix(text, toks, toks.len() as int);
        assert(toks.take(toks.len() as int) =~= toks);
        assert(text.subrange(0, text.len() as int) =~= text);
    }
}

/// Every character of the text lies in exactly one token.
pub proof fn lemma_tokens_cover(text: Seq<char>, toks: Seq<Token>, lang: Language, p: int)
    requires
        lexed(text, toks, lang),
        0 <= p < text.len(),
    ensures
        exists|i: int| 0 <= i < toks.len() && #[trigger] toks[i].start <= p < toks[i].end,
        forall|i: int, j: int|
            0 <= i < toks.len() && 0 <= j < toks.len() && #[trigger] toks[i].start <= p
                < toks[i].end && #[trigger] toks[j].start <= p < toks[j].end ==> i == j,
{
    assert forall|i: int, j: int|
        0 <= i < toks.len() && 0 <= j < toks.len() && #[trigger] toks[i].start <= p
            < toks[i].end && #[trigger] toks[j].start <= p < toks[j].end implies i == j by {
        if i < j {
            lemma_tile_ends_bounded(toks, text.len(), i);
            assert(toks[j].start >= toks[i].end);
        } else if j < i {
            lemma_tile_ends_bounded(toks, text.len(), j);
            assert(toks[i].start >= toks[j].end);
        }
    }
    lemma_first_token_ending_after(text, toks, p, 0);
}

proof fn lemma_first_token_ending_after(text: Seq<char>, toks: Seq<Token>, p: int, k: int)
    requires
        tiles(toks, text.len()),
        0 <= p < text.len(),
        0 <= k < toks.len(),
        toks[k].start <= p,
    ensures
        exists|i: int| 0 <= i < toks.len() && #[trigger] toks[i].start <= p < toks[i].end,
    decreases toks.len() - k,
{
    if p < toks[k].end {
        assert(toks[k].start <= p < toks[k].end);
    } else if k + 1 < toks.len() {
        assert(toks[k + 1].start == toks[k].end);
        lemma_first_token_ending_after(text, toks, p, k + 1);
    } else {
        assert(toks[toks.len() - 1].end == text.len());
    }
}

} // verus!
