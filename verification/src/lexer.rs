//! The lexer: comments are blanked, then the text is cut into parentheses
//! and atoms.

use vstd::prelude::*;
use crate::error::{ErrorKind, Fault, PlannerError, fault_at};
use crate::text::is_space;

verus! {

/// Whether position `i` of `s` lies inside a comment: at or after a `;`, with
/// no line feed in between. The line feed that ends a comment is not part of it.
pub open spec fn in_comment(s: Seq<char>, i: int) -> bool
    decreases i,
{
    if i < 0 || i >= s.len() {
        false
    } else {
        s[i] != '\n' && (s[i] == ';' || (i > 0 && in_comment(s, i - 1)))
    }
}

/// The text with every character of a comment replaced by a space, so that
/// offsets into the blanked text are offsets into the text as it was given.
pub open spec fn strip_comments(s: Seq<char>) -> Seq<char> {
    Seq::new(
        s.len(),
        |i: int|
            if in_comment(s, i) {
                ' '
            } else {
                s[i]
            },
    )
}

/// Blanks the comments of a text.
pub fn blank_comments(content: &Vec<char>) -> (blanked: Vec<char>)
    ensures
        blanked@ == strip_comments(content@),
{
    let mut cleaned: Vec<char> = Vec::new();
    let mut commented = false;
    let mut i: usize = 0;
    while i < content.len()
        invariant
            i <= content.len(),
            cleaned.len() == i,
            commented == (i > 0 && in_comment(content@, i - 1)),
            forall|k: int| 0 <= k < i ==> cleaned@[k] == #[trigger] strip_comments(content@)[k],
        decreases content.len() - i,
    {
        let c = content[i];
        commented = c != '\n' && (c == ';' || commented);
        if commented {
            cleaned.push(' ');
        } else {
            cleaned.push(c);
        }
        i = i + 1;
    }
    assert(cleaned@ =~= strip_comments(content@));
    cleaned
}

#[derive(Clone, Copy, Debug, PartialEq, Eq, Structural)]
pub enum TokenKind {
    Open,
    Close,
    Atom,
}

/// A token and the place of its first character, counted in characters.
#[derive(Debug)]
pub struct Token {
    pub kind: TokenKind,
    pub text: Vec<char>,
    pub offset: usize,
}

pub struct TokenView {
    pub kind: TokenKind,
    pub text: Seq<char>,
    pub offset: int,
}

impl View for Token {
    type V = TokenView;

    open spec fn view(&self) -> TokenView {
        TokenView { kind: self.kind, text: self.text@, offset: self.offset as int }
    }
}

pub open spec fn tokens_view(tokens: Seq<Token>) -> Seq<TokenView> {
    Seq::new(tokens.len(), |i: int| tokens[i]@)
}

/// Whether position `i` lies inside a quoted identifier: an odd number of
/// `"` stand before it.
pub open spec fn quoted(s: Seq<char>, i: int) -> bool
    decreases i,
{
    if i <= 0 || i > s.len() {
        false
    } else {
        quoted(s, i - 1) != (s[i - 1] == '"')
    }
}

/// The offset of the last `"` before position `n`, or 0 if there is none.
pub open spec fn last_quote(s: Seq<char>, n: int) -> int
    decreases n,
{
    if n <= 0 || n > s.len() {
        0
    } else if s[n - 1] == '"' {
        n - 1
    } else {
        last_quote(s, n - 1)
    }
}

/// Whether the character at `i` belongs to an atom: anything inside quotes,
/// a quote itself, and outside quotes anything but white space and
/// parentheses.
pub open spec fn is_atom_char(s: Seq<char>, i: int) -> bool {
    0 <= i < s.len() && (quoted(s, i) || s[i] == '"' || !(is_space(s[i]) || s[i] == '(' || s[i]
        == ')'))
}

/// The tokens of the first `n` characters of `s`. Each parenthesis outside
/// quotes is a token; each maximal run of atom characters is one atom.
pub open spec fn lex_prefix(s: Seq<char>, n: int) -> Seq<TokenView>
    decreases n,
{
    if n <= 0 || n > s.len() {
        Seq::empty()
    } else {
        let before = lex_prefix(s, n - 1);
        let i = n - 1;
        if is_atom_char(s, i) {
            if is_atom_char(s, i - 1) && before.len() > 0 {
                before.drop_last().push(
                    TokenView {
                        kind: TokenKind::Atom,
                        text: before.last().text.push(s[i]),
                        offset: before.last().offset,
                    },
                )
            } else {
                before.push(TokenView { kind: TokenKind::Atom, text: seq![s[i]], offset: i })
            }
        } else if s[i] == '(' {
            before.push(TokenView { kind: TokenKind::Open, text: seq!['('], offset: i })
        } else if s[i] == ')' {
            before.push(TokenView { kind: TokenKind::Close, text: seq![')'], offset: i })
        } else {
            before
        }
    }
}

/// The tokens of a text, or the fault of an identifier whose quote is left
/// open, found at that quote.
pub open spec fn lex(s: Seq<char>) -> Result<Seq<TokenView>, Fault> {
    if quoted(s, s.len() as int) {
        Err(fault_at(ErrorKind::MalformedSyntax, last_quote(s, s.len() as int)))
    } else {
        Ok(lex_prefix(s, s.len() as int))
    }
}

/// What the scan has seen so far: the finished tokens, and the atom under way.
spec fn scanned(done: Seq<Token>, in_atom: bool, current: Seq<char>, start: int) -> Seq<
    TokenView,
> {
    if in_atom {
        tokens_view(done).push(TokenView { kind: TokenKind::Atom, text: current, offset: start })
    } else {
        tokens_view(done)
    }
}

/// Cuts a text whose comments are blanked into parentheses and atoms.
pub fn scan_tokens(s: &Vec<char>) -> (r: Result<Vec<Token>, PlannerError>)
    ensures
        match lex(s@) {
            Ok(tokens) => r is Ok && tokens_view(r->Ok_0@) == tokens,
            Err(f) => r is Err && r->Err_0@ == f,
        },
{
    let mut tokens: Vec<Token> = Vec::new();
    let mut current: Vec<char> = Vec::new();
    let mut start: usize = 0;
    let mut in_atom = false;
    let mut in_quotes = false;
    let mut quote_at: usize = 0;
    let mut i: usize = 0;
    while i < s.len()
        invariant
            i <= s.len(),
            in_quotes == quoted(s@, i as int),
            quote_at == last_quote(s@, i as int),
            in_atom == is_atom_char(s@, i - 1),
            lex_prefix(s@, i as int) == scanned(tokens@, in_atom, current@, start as int),
        decreases s.len() - i,
    {
        let c = s[i];
        let atom_char = in_quotes || c == '"' || !(c == ' ' || c == '\t' || c == '\n' || c == '\r'
            || c == '(' || c == ')');
        let ghost before = lex_prefix(s@, i as int);
        let ghost done = tokens@;
        assert(atom_char == is_atom_char(s@, i as int));
        if atom_char {
            if in_atom {
                current.push(c);
                proof {
                    assert(before.len() > 0);
                    assert(before.drop_last() =~= tokens_view(done));
                }
            } else {
                current = Vec::new();
                current.push(c);
                start = i;
                in_atom = true;
                proof {
                    assert(current@ =~= seq![c]);
                }
            }
        } else {
            if in_atom {
                tokens.push(Token { kind: TokenKind::Atom, text: current, offset: start });
                current = Vec::new();
                in_atom = false;
                proof {
                    assert(tokens_view(tokens@) =~= before);
                }
            }
            let ghost flushed = tokens@;
            if c == '(' {
                let mut text: Vec<char> = Vec::new();
                text.push('(');
                tokens.push(Token { kind: TokenKind::Open, text, offset: i });
                proof {
                    assert(text@ =~= seq!['(']);
                    assert(tokens_view(tokens@) =~= tokens_view(flushed).push(
                        TokenView { kind: TokenKind::Open, text: seq!['('], offset: i as int },
                    ));
                }
            } else if c == ')' {
                let mut text: Vec<char> = Vec::new();
                text.push(')');
                tokens.push(Token { kind: TokenKind::Close, text, offset: i });
                proof {
                    assert(text@ =~= seq![')']);
                    assert(tokens_view(tokens@) =~= tokens_view(flushed).push(
                        TokenView { kind: TokenKind::Close, text: seq![')'], offset: i as int },
                    ));
                }
            }
        }
        if c == '"' {
            in_quotes = !in_quotes;
            quote_at = i;
        }
        i = i + 1;
    }
    if in_quotes {
        return Err(PlannerError::at(ErrorKind::MalformedSyntax, quote_at));
    }
    if in_atom {
        tokens.push(Token { kind: TokenKind::Atom, text: current, offset: start });
        proof {
            assert(tokens_view(tokens@) =~= lex_prefix(s@, s.len() as int));
        }
    }
    Ok(tokens)
}

} // verus!
