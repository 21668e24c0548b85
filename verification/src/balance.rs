//! Balance: a text is read without a fault exactly when its parentheses
//! balance and its quotes are closed.

use vstd::prelude::*;
use crate::compile::task_of;
use crate::domain::domain_of_text;
use crate::error::{ErrorKind, Fault};
use crate::lexer::{TokenKind, TokenView, is_atom_char, lex_prefix, quoted, strip_comments};
use crate::reading::lemma_stack_of_longer;
use crate::sexpr::{FrameView, shift, stack_after, text_trees, trees_of};
use crate::surface::{formula_tokens, grouped};

verus! {

/// How many parentheses are open after the first `n` characters. What
/// stands inside quotes does not count.
pub open spec fn open_depth(t: Seq<char>, n: int) -> int
    decreases n,
{
    if n <= 0 || n > t.len() {
        0
    } else if is_atom_char(t, n - 1) {
        open_depth(t, n - 1)
    } else if t[n - 1] == '(' {
        open_depth(t, n - 1) + 1
    } else if t[n - 1] == ')' {
        open_depth(t, n - 1) - 1
    } else {
        open_depth(t, n - 1)
    }
}

/// Whether no `)` among the first `n` characters closes what was not opened.
pub open spec fn never_below(t: Seq<char>, n: int) -> bool {
    forall|k: int| 0 <= k <= n ==> #[trigger] open_depth(t, k) >= 0
}

/// Whether the parentheses of a text balance: none closes what was not
/// opened, and none is left open.
pub open spec fn balanced(t: Seq<char>) -> bool {
    never_below(t, t.len() as int) && open_depth(t, t.len() as int) == 0
}

/// A text without its comments is well formed where its parentheses balance
/// and its quotes are closed.
pub open spec fn well_formed(s: Seq<char>) -> bool {
    let t = strip_comments(s);
    balanced(t) && !quoted(t, t.len() as int)
}

/// A stack that the parser reaches is never empty.
pub proof fn lemma_stack_has_bottom(tokens: Seq<TokenView>, n: int)
    ensures
        stack_after(tokens, n) matches Ok(stack) ==> stack.len() >= 1,
    decreases n,
{
    if !(n <= 0 || n > tokens.len()) {
        lemma_stack_has_bottom(tokens, n - 1);
    }
}

/// The stack after all the tokens of a start of the text.
pub open spec fn stack_of(t: Seq<char>, n: int) -> Result<Seq<FrameView>, Fault> {
    stack_after(lex_prefix(t, n), lex_prefix(t, n).len() as int)
}

/// While no `)` closes what was not opened, the parser holds one open list
/// for each open parenthesis; from the first that does, it holds the fault
/// of malformed syntax.
pub proof fn lemma_stack_depth(t: Seq<char>, n: int)
    requires
        0 <= n <= t.len(),
    ensures
        match stack_of(t, n) {
            Ok(stack) => stack.len() == 1 + open_depth(t, n) && never_below(t, n),
            Err(f) => f.kind == ErrorKind::MalformedSyntax && !never_below(t, n),
        },
    decreases n,
{
    if n > 0 {
        lemma_stack_depth(t, n - 1);
        let before = lex_prefix(t, n - 1);
        let toks = lex_prefix(t, n);
        let i = n - 1;
        lemma_stack_has_bottom(before, before.len() as int);
        if is_atom_char(t, i) && is_atom_char(t, i - 1) && before.len() > 0 {
            let p = before.drop_last();
            let last = before.last();
            assert(last.kind == TokenKind::Atom) by {
                lemma_atom_is_last(t, n - 1);
            }
            assert(before =~= p + seq![last]);
            assert(toks =~= p + seq![toks.last()]);
            lemma_stack_of_longer(p, seq![last], p.len() as int);
            lemma_stack_of_longer(p, seq![toks.last()], p.len() as int);
            lemma_stack_has_bottom(p, p.len() as int);
            assert(stack_of(t, n - 1) == match stack_after(p, p.len() as int) {
                Ok(stack) => shift(stack, last),
                Err(f) => Err(f),
            });
            assert(stack_of(t, n) == match stack_after(p, p.len() as int) {
                Ok(stack) => shift(stack, toks.last()),
                Err(f) => Err(f),
            });
        } else if is_atom_char(t, i) || t[i] == '(' || t[i] == ')' {
            assert(toks =~= before + seq![toks.last()]);
            lemma_stack_of_longer(before, seq![toks.last()], before.len() as int);
            assert(stack_of(t, n) == match stack_of(t, n - 1) {
                Ok(stack) => shift(stack, toks.last()),
                Err(f) => Err(f),
            });
        }
        match stack_of(t, n) {
            Ok(stack) => {
                assert(stack_of(t, n - 1) is Ok);
                assert forall|k: int| 0 <= k <= n implies #[trigger] open_depth(t, k) >= 0 by {
                    if k < n {
                        assert(never_below(t, n - 1));
                    }
                }
            },
            Err(f) => {
                if stack_of(t, n - 1) is Err {
                    let k = choose|k: int| 0 <= k <= n - 1 && !(#[trigger] open_depth(t, k) >= 0);
                    assert(!(open_depth(t, k) >= 0));
                } else {
                    assert(open_depth(t, n) < 0);
                }
            },
        }
    } else {
        assert(open_depth(t, 0) == 0);
    }
}

/// Where the character before the end is one of an atom, the last token is
/// an atom.
pub proof fn lemma_atom_is_last(t: Seq<char>, n: int)
    requires
        1 <= n <= t.len(),
        is_atom_char(t, n - 1),
    ensures
        lex_prefix(t, n).len() > 0,
        lex_prefix(t, n).last().kind == TokenKind::Atom,
{
}

/// The parser reads the tokens of a text without a fault exactly when the
/// parentheses of the text balance, and its only fault is malformed syntax.
pub proof fn lemma_trees_need_balance(t: Seq<char>)
    ensures
        trees_of(lex_prefix(t, t.len() as int)) is Ok <==> balanced(t),
        trees_of(lex_prefix(t, t.len() as int)) matches Err(f) ==> f.kind
            == ErrorKind::MalformedSyntax,
{
    lemma_stack_depth(t, t.len() as int);
}

/// A text is read without a fault exactly when it is well formed: its
/// parentheses balance and its quotes are closed. The only fault of reading
/// is malformed syntax.
pub proof fn lemma_reading_needs_balance(s: Seq<char>)
    ensures
        text_trees(s) is Ok <==> well_formed(s),
        text_trees(s) matches Err(f) ==> f.kind == ErrorKind::MalformedSyntax,
{
    let t = strip_comments(s);
    lemma_trees_need_balance(t);
}

/// A domain text that is not well formed compiles to no task: the fault is
/// malformed syntax, whatever the problem text holds.
pub proof fn lemma_unbalanced_domain_is_malformed(domain_content: Seq<char>, problem_content: Seq<char>)
    requires
        !well_formed(domain_content),
    ensures
        task_of(domain_content, problem_content) matches Err(f) && f.kind
            == ErrorKind::MalformedSyntax,
{
    lemma_reading_needs_balance(domain_content);
    assert(domain_of_text(domain_content) is Err);
}

/// While no `)` closes what was not opened, the grouping of a formula holds
/// as many open parentheses as the text; from the first that does, it holds
/// the fault of malformed syntax.
pub proof fn lemma_grouped_depth(t: Seq<char>, n: int)
    requires
        0 <= n <= t.len(),
    ensures
        match grouped(t, n) {
            Ok(g) => g.depth == open_depth(t, n) && never_below(t, n),
            Err(f) => f.kind == ErrorKind::MalformedSyntax && !never_below(t, n),
        },
    decreases n,
{
    if n > 0 {
        lemma_grouped_depth(t, n - 1);
        match grouped(t, n) {
            Ok(g) => {
                assert forall|k: int| 0 <= k <= n implies #[trigger] open_depth(t, k) >= 0 by {
                    if k < n {
                        assert(never_below(t, n - 1));
                    }
                }
            },
            Err(f) => {
                if grouped(t, n - 1) is Err {
                    let k = choose|k: int| 0 <= k <= n - 1 && !(#[trigger] open_depth(t, k) >= 0);
                    assert(!(open_depth(t, k) >= 0));
                } else {
                    assert(open_depth(t, n) < 0);
                }
            },
        }
    } else {
        assert(open_depth(t, 0) == 0);
    }
}

/// A formula is cut into tokens without a fault exactly when it is well
/// formed, and the only fault of cutting is malformed syntax.
pub proof fn lemma_tokens_need_balance(s: Seq<char>)
    ensures
        formula_tokens(s) is Ok <==> well_formed(s),
        formula_tokens(s) matches Err(f) ==> f.kind == ErrorKind::MalformedSyntax,
{
    let t = strip_comments(s);
    lemma_grouped_depth(t, t.len() as int);
}

/// The shape of a top-level token: it is not empty, and one that begins
/// with `(` is a group, which ends with `)`.
pub open spec fn token_shape(token: Seq<char>) -> bool {
    token.len() > 0 && (token[0] == '(' ==> token.last() == ')')
}

/// Every token that is complete has the shape of a token; a group under way
/// begins with `(`, and an atom under way does not.
pub proof fn lemma_grouped_shape(t: Seq<char>, n: int)
    requires
        0 <= n <= t.len(),
    ensures
        grouped(t, n) matches Ok(g) ==> {
            &&& forall|i: int| 0 <= i < g.tokens.len() ==> token_shape(#[trigger] g.tokens[i])
            &&& (g.depth > 0 ==> g.current.len() > 0 && g.current[0] == '(')
            &&& (g.depth == 0 && g.current.len() > 0 ==> g.current[0] != '(')
            &&& (quoted(t, n) ==> g.current.len() > 0)
        },
    decreases n,
{
    if n > 0 {
        lemma_grouped_shape(t, n - 1);
        match (grouped(t, n - 1), grouped(t, n)) {
            (Ok(b), Ok(g)) => {
                assert forall|i: int| 0 <= i < g.tokens.len() implies token_shape(
                    #[trigger] g.tokens[i],
                ) by {
                    if i < b.tokens.len() {
                        assert(g.tokens[i] == b.tokens[i]);
                    }
                }
            },
            _ => {},
        }
    }
}

/// Every top-level token of a formula is not empty, and one that begins with
/// `(` ends with `)`.
pub proof fn lemma_tokens_have_shape(s: Seq<char>)
    ensures
        formula_tokens(s) matches Ok(tokens) ==> forall|i: int|
            0 <= i < tokens.len() ==> token_shape(#[trigger] tokens[i]),
{
    let t = strip_comments(s);
    lemma_grouped_shape(t, t.len() as int);
    match (grouped(t, t.len() as int), formula_tokens(s)) {
        (Ok(g), Ok(tokens)) => {
            assert forall|i: int| 0 <= i < tokens.len() implies token_shape(#[trigger] tokens[i]) by {
                if i < g.tokens.len() {
                    assert(tokens[i] == g.tokens[i]);
                }
            }
        },
        _ => {},
    }
}

/// The first `n` tokens written one after the other.
pub open spec fn joined_tokens(tokens: Seq<Seq<char>>, n: int) -> Seq<char>
    decreases n,
{
    if n <= 0 || n > tokens.len() {
        Seq::empty()
    } else {
        joined_tokens(tokens, n - 1) + tokens[n - 1]
    }
}

/// The first `n` characters of a text without the white space that stands
/// outside every group and outside quotes.
pub open spec fn without_top_space(t: Seq<char>, n: int) -> Seq<char>
    decreases n,
{
    if n <= 0 || n > t.len() {
        Seq::empty()
    } else if !is_atom_char(t, n - 1) && t[n - 1] != '(' && t[n - 1] != ')' && open_depth(t, n - 1)
        == 0 {
        without_top_space(t, n - 1)
    } else {
        without_top_space(t, n - 1).push(t[n - 1])
    }
}

pub proof fn lemma_joined_prefix(tokens: Seq<Seq<char>>, more: Seq<Seq<char>>, n: int)
    requires
        0 <= n <= tokens.len(),
    ensures
        joined_tokens(tokens + more, n) == joined_tokens(tokens, n),
    decreases n,
{
    if n > 0 {
        lemma_joined_prefix(tokens, more, n - 1);
        assert((tokens + more)[n - 1] == tokens[n - 1]);
    }
}

pub proof fn lemma_joined_push(tokens: Seq<Seq<char>>, token: Seq<char>)
    ensures
        joined_tokens(tokens.push(token), tokens.len() as int + 1) == joined_tokens(
            tokens,
            tokens.len() as int,
        ) + token,
{
    assert(tokens.push(token) =~= tokens + seq![token]);
    lemma_joined_prefix(tokens, seq![token], tokens.len() as int);
}

/// The complete tokens and the token under way, written one after the
/// other, are the text so far without its white space at the top level.
pub proof fn lemma_grouped_text(t: Seq<char>, n: int)
    requires
        0 <= n <= t.len(),
    ensures
        grouped(t, n) matches Ok(g) ==> joined_tokens(g.tokens, g.tokens.len() as int) + g.current
            == without_top_space(t, n),
    decreases n,
{
    if n > 0 {
        lemma_grouped_text(t, n - 1);
        lemma_grouped_depth(t, n - 1);
        match (grouped(t, n - 1), grouped(t, n)) {
            (Ok(b), Ok(g)) => {
                let c = t[n - 1];
                let before = joined_tokens(b.tokens, b.tokens.len() as int);
                if g.tokens.len() > b.tokens.len() {
                    lemma_joined_push(b.tokens, g.tokens.last());
                    assert(g.tokens =~= b.tokens.push(g.tokens.last()));
                }
                assert(joined_tokens(g.tokens, g.tokens.len() as int) + g.current
                    =~= without_top_space(t, n)) by {
                    assert(before + b.current == without_top_space(t, n - 1));
                    assert((before + b.current).push(c) =~= before + b.current.push(c));
                    assert(before + b.current + seq![c] =~= before + b.current.push(c));
                    assert(before + b.current + Seq::<char>::empty() =~= before + b.current);
                }
            },
            _ => {},
        }
    } else {
        assert(Seq::<char>::empty() + Seq::<char>::empty() =~= Seq::<char>::empty());
    }
}

/// The top-level tokens of a formula stand in the order of the text:
/// written one after the other, they are the text, comments blanked,
/// without its white space at the top level.
pub proof fn lemma_tokens_give_the_text(s: Seq<char>)
    ensures
        formula_tokens(s) matches Ok(tokens) ==> joined_tokens(tokens, tokens.len() as int)
            == without_top_space(strip_comments(s), s.len() as int),
{
    let t = strip_comments(s);
    lemma_grouped_text(t, t.len() as int);
    match (grouped(t, t.len() as int), formula_tokens(s)) {
        (Ok(g), Ok(tokens)) => {
            if g.current.len() > 0 {
                lemma_joined_push(g.tokens, g.current);
            } else {
                assert(joined_tokens(g.tokens, g.tokens.len() as int) + g.current
                    =~= joined_tokens(g.tokens, g.tokens.len() as int));
            }
        },
        _ => {},
    }
}

} // verus!
