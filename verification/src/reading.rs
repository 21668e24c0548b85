//! The law of writing and reading: a tree that is written is read back as
//! it was.

use vstd::prelude::*;
use crate::error::Fault;
use crate::lexer::{
    TokenKind, TokenView, in_comment, is_atom_char, lex_prefix, quoted, strip_comments,
};
use crate::serialise::{printed, printed_items};
use crate::sexpr::{FrameView, Tree, shift, stack_after, text_trees};
use crate::text::is_space;

verus! {

/// A character that can stand anywhere in an atom.
pub open spec fn plain_char(c: char) -> bool {
    !is_space(c) && c != '(' && c != ')' && c != '"' && c != ';'
}

/// An atom all of whose characters are plain.
pub open spec fn simple_atom(a: Seq<char>) -> bool {
    a.len() > 0 && forall|i: int| 0 <= i < a.len() ==> plain_char(#[trigger] a[i])
}

/// An atom that is read back as it is written: it is not empty, every
/// character of it is one of an atom, none is a `;`, and every quote in it is
/// closed.
pub open spec fn plain_atom(a: Seq<char>) -> bool {
    &&& a.len() > 0
    &&& !quoted(a, a.len() as int)
    &&& forall|i: int| 0 <= i < a.len() ==> is_atom_char(a, i) && #[trigger] a[i] != ';'
}

/// A tree all of whose atoms are read back as they are written.
pub open spec fn printable(t: Tree) -> bool
    decreases t,
{
    match t {
        Tree::Atom(a) => plain_atom(a),
        Tree::List(items) => forall|i: int|
            0 <= i < items.len() ==> printable(#[trigger] items[i]),
    }
}

/// A text without comments in which every quote is closed.
pub open spec fn tame(s: Seq<char>) -> bool {
    &&& !quoted(s, s.len() as int)
    &&& forall|i: int| 0 <= i < s.len() ==> #[trigger] s[i] != ';'
}

/// Whether a text ends where an atom can start: it is empty, or its last
/// character is a space or a parenthesis.
pub open spec fn at_boundary(s: Seq<char>) -> bool {
    s.len() == 0 || is_space(s.last()) || s.last() == '(' || s.last() == ')'
}

pub proof fn lemma_no_semicolon_no_comments(s: Seq<char>, i: int)
    requires
        forall|k: int| 0 <= k < s.len() ==> #[trigger] s[k] != ';',
    ensures
        !in_comment(s, i),
    decreases i,
{
    if 0 <= i < s.len() {
        assert(s[i] != ';');
        if i > 0 {
            lemma_no_semicolon_no_comments(s, i - 1);
        }
    }
}

pub proof fn lemma_tame_is_clean(s: Seq<char>)
    requires
        forall|k: int| 0 <= k < s.len() ==> #[trigger] s[k] != ';',
    ensures
        strip_comments(s) == s,
{
    assert forall|i: int| 0 <= i < s.len() implies strip_comments(s)[i] == s[i] by {
        lemma_no_semicolon_no_comments(s, i);
    }
    assert(strip_comments(s) =~= s);
}

/// Whether a place lies inside quotes depends on the text before it alone.
pub proof fn lemma_quoted_of_longer(x: Seq<char>, y: Seq<char>, i: int)
    requires
        0 <= i <= x.len(),
    ensures
        quoted(x + y, i) == quoted(x, i),
    decreases i,
{
    if i > 0 {
        lemma_quoted_of_longer(x, y, i - 1);
        assert((x + y)[i - 1] == x[i - 1]);
    }
}

/// Behind a text in which every quote is closed, a place lies inside quotes
/// as it does in what follows alone.
pub proof fn lemma_quoted_behind(x: Seq<char>, y: Seq<char>, i: int)
    requires
        !quoted(x, x.len() as int),
        0 <= i <= y.len(),
    ensures
        quoted(x + y, x.len() + i) == quoted(y, i),
    decreases i,
{
    if i > 0 {
        lemma_quoted_behind(x, y, i - 1);
        assert((x + y)[x.len() + i - 1] == y[i - 1]);
    } else {
        lemma_quoted_of_longer(x, y, x.len() as int);
    }
}

pub proof fn lemma_atom_char_of_longer(x: Seq<char>, y: Seq<char>, i: int)
    requires
        i < x.len(),
    ensures
        is_atom_char(x + y, i) == is_atom_char(x, i),
{
    if 0 <= i {
        lemma_quoted_of_longer(x, y, i);
        assert((x + y)[i] == x[i]);
    }
}

/// An atom all of whose characters are plain is read back as it is written.
pub proof fn lemma_simple_is_plain(a: Seq<char>)
    requires
        simple_atom(a),
    ensures
        plain_atom(a),
{
    lemma_no_quotes_not_quoted(a, a.len() as int);
    assert forall|i: int| 0 <= i < a.len() implies is_atom_char(a, i) && #[trigger] a[i] != ';' by {
        assert(plain_char(a[i]));
    }
}

pub proof fn lemma_no_quotes_not_quoted(s: Seq<char>, i: int)
    requires
        forall|k: int| 0 <= k < s.len() ==> plain_char(#[trigger] s[k]),
    ensures
        !quoted(s, i),
    decreases i,
{
    if 0 < i <= s.len() {
        lemma_no_quotes_not_quoted(s, i - 1);
        assert(plain_char(s[i - 1]));
    }
}

/// The tokens of the start of a text do not depend on what follows.
pub proof fn lemma_lex_prefix_of_longer(x: Seq<char>, y: Seq<char>, n: int)
    requires
        0 <= n <= x.len(),
    ensures
        lex_prefix(x + y, n) == lex_prefix(x, n),
    decreases n,
{
    let s = x + y;
    if n > 0 {
        lemma_lex_prefix_of_longer(x, y, n - 1);
        lemma_atom_char_of_longer(x, y, n - 1);
        lemma_atom_char_of_longer(x, y, n - 2);
        assert(s[n - 1] == x[n - 1]);
    }
}

/// Where every quote of a text is closed, its last character, if it is a
/// space or a parenthesis, is none of an atom.
pub proof fn lemma_boundary_is_no_atom(p: Seq<char>)
    requires
        !quoted(p, p.len() as int),
        at_boundary(p),
    ensures
        !is_atom_char(p, p.len() - 1),
{
    if p.len() > 0 {
        assert(quoted(p, p.len() as int) == (quoted(p, p.len() - 1) != (p[p.len() - 1] == '"')));
    }
}

/// The tokens of a tree that is written from the offset `o` on.
pub open spec fn tokens_of(t: Tree, o: int) -> Seq<TokenView>
    decreases t, 0nat,
{
    match t {
        Tree::Atom(a) => seq![TokenView { kind: TokenKind::Atom, text: a, offset: o }],
        Tree::List(items) => seq![TokenView { kind: TokenKind::Open, text: seq!['('], offset: o }]
            + tokens_of_items(items, items.len() as int, o + 1) + seq![
            TokenView {
                kind: TokenKind::Close,
                text: seq![')'],
                offset: o + 1 + printed_items(items, items.len() as int).len(),
            },
        ],
    }
}

/// The tokens of the first `n` items that are written from the offset `o` on.
pub open spec fn tokens_of_items(items: Seq<Tree>, n: int, o: int) -> Seq<TokenView>
    decreases items, n,
{
    if n <= 0 || n > items.len() {
        Seq::empty()
    } else if n == 1 {
        tokens_of(items[0], o)
    } else {
        tokens_of_items(items, n - 1, o) + tokens_of(
            items[n - 1],
            o + printed_items(items, n - 1).len() + 1,
        )
    }
}

pub proof fn lemma_tame_concat(x: Seq<char>, y: Seq<char>)
    requires
        tame(x),
        tame(y),
    ensures
        tame(x + y),
{
    let s = x + y;
    lemma_quoted_behind(x, y, y.len() as int);
    assert forall|i: int| 0 <= i < s.len() implies #[trigger] s[i] != ';' by {
        if i < x.len() {
            assert(s[i] == x[i]);
        } else {
            assert(s[i] == y[i - x.len()]);
        }
    }
}

pub proof fn lemma_mark_is_tame(c: char)
    requires
        c == ' ' || c == '(' || c == ')',
    ensures
        tame(seq![c]),
{
    let s = seq![c];
    assert(quoted(s, 1) == (quoted(s, 0) != (s[0] == '"')));
}

pub proof fn lemma_atom_is_tame(a: Seq<char>)
    requires
        plain_atom(a),
    ensures
        tame(a),
{
}

/// What is written of a printable tree is tame and not empty.
pub proof fn lemma_printed_is_tame(t: Tree)
    requires
        printable(t),
    ensures
        tame(printed(t)),
        printed(t).len() > 0,
    decreases t, 0nat,
{
    match t {
        Tree::Atom(a) => {
            lemma_atom_is_tame(a);
        },
        Tree::List(items) => {
            lemma_printed_items_are_tame(items, items.len() as int);
            let inner = printed_items(items, items.len() as int);
            lemma_mark_is_tame('(');
            lemma_mark_is_tame(')');
            lemma_tame_concat(seq!['('], inner);
            lemma_tame_concat(seq!['('] + inner, seq![')']);
        },
    }
}

pub proof fn lemma_printed_items_are_tame(items: Seq<Tree>, n: int)
    requires
        forall|i: int| 0 <= i < items.len() ==> printable(#[trigger] items[i]),
        0 <= n <= items.len(),
    ensures
        tame(printed_items(items, n)),
    decreases items, n,
{
    if n == 1 {
        lemma_printed_is_tame(items[0]);
    } else if n > 1 {
        lemma_printed_items_are_tame(items, n - 1);
        lemma_printed_is_tame(items[n - 1]);
        let before = printed_items(items, n - 1);
        let last = printed(items[n - 1]);
        lemma_mark_is_tame(' ');
        lemma_tame_concat(before, seq![' ']);
        lemma_tame_concat(before + seq![' '], last);
    } else {
        assert(printed_items(items, n) =~= Seq::<char>::empty());
    }
}

/// An atom written behind a boundary is one more token.
pub proof fn lemma_lex_atom(p: Seq<char>, a: Seq<char>, k: int)
    requires
        tame(p),
        at_boundary(p),
        plain_atom(a),
        1 <= k <= a.len(),
    ensures
        lex_prefix(p + a, p.len() as int + k) == lex_prefix(p, p.len() as int).push(
            TokenView { kind: TokenKind::Atom, text: a.take(k), offset: p.len() as int },
        ),
    decreases k,
{
    let s = p + a;
    let at = p.len() + k - 1;
    assert(s[at] == a[k - 1]);
    lemma_quoted_behind(p, a, k - 1);
    assert(is_atom_char(a, k - 1));
    assert(is_atom_char(s, at));
    if k == 1 {
        lemma_lex_prefix_of_longer(p, a, p.len() as int);
        lemma_boundary_is_no_atom(p);
        lemma_atom_char_of_longer(p, a, p.len() - 1);
        assert(a.take(1) =~= seq![a[0]]);
    } else {
        lemma_lex_atom(p, a, k - 1);
        assert(s[at - 1] == a[k - 2]);
        lemma_quoted_behind(p, a, k - 2);
        assert(is_atom_char(a, k - 2));
        assert(is_atom_char(s, at - 1));
        let before = lex_prefix(s, at);
        assert(before.drop_last() =~= lex_prefix(p, p.len() as int));
        assert(a.take(k) =~= a.take(k - 1).push(a[k - 1]));
    }
}

/// A space or a parenthesis written behind a text: a space is no token, a
/// parenthesis is one.
pub proof fn lemma_lex_mark(p: Seq<char>, c: char)
    requires
        tame(p),
        c == ' ' || c == '(' || c == ')',
    ensures
        tame(p.push(c)),
        at_boundary(p.push(c)),
        lex_prefix(p.push(c), p.len() as int + 1) == (if c == ' ' {
            lex_prefix(p, p.len() as int)
        } else {
            lex_prefix(p, p.len() as int).push(
                TokenView {
                    kind: if c == '(' {
                        TokenKind::Open
                    } else {
                        TokenKind::Close
                    },
                    text: seq![c],
                    offset: p.len() as int,
                },
            )
        }),
{
    let s = p.push(c);
    assert(s =~= p + seq![c]);
    lemma_mark_is_tame(c);
    lemma_tame_concat(p, seq![c]);
    lemma_lex_prefix_of_longer(p, seq![c], p.len() as int);
    lemma_quoted_of_longer(p, seq![c], p.len() as int);
}

/// The tokens of a text with a printable tree written behind it, at a
/// boundary, are the tokens of the text and then those of the tree.
pub proof fn lemma_lex_tree(p: Seq<char>, t: Tree)
    requires
        tame(p),
        at_boundary(p),
        printable(t),
    ensures
        tame(p + printed(t)),
        lex_prefix(p + printed(t), (p + printed(t)).len() as int) == lex_prefix(
            p,
            p.len() as int,
        ) + tokens_of(t, p.len() as int),
    decreases t, 0nat,
{
    lemma_printed_is_tame(t);
    lemma_tame_concat(p, printed(t));
    match t {
        Tree::Atom(a) => {
            lemma_lex_atom(p, a, a.len() as int);
            assert(a.take(a.len() as int) =~= a);
            assert(lex_prefix(p, p.len() as int).push(tokens_of(t, p.len() as int)[0])
                =~= lex_prefix(p, p.len() as int) + tokens_of(t, p.len() as int));
        },
        Tree::List(items) => {
            let opened = p.push('(');
            lemma_lex_mark(p, '(');
            lemma_lex_items(opened, items, items.len() as int);
            let inner = printed_items(items, items.len() as int);
            let filled = opened + inner;
            lemma_lex_mark(filled, ')');
            assert(filled.push(')') =~= p + printed(t));
            assert(lex_prefix(p + printed(t), (p + printed(t)).len() as int) =~= lex_prefix(
                p,
                p.len() as int,
            ) + tokens_of(t, p.len() as int));
        },
    }
}

/// The tokens of a text with the first `n` items written behind it.
pub proof fn lemma_lex_items(p: Seq<char>, items: Seq<Tree>, n: int)
    requires
        tame(p),
        p.len() > 0,
        p.last() == '(',
        forall|i: int| 0 <= i < items.len() ==> printable(#[trigger] items[i]),
        0 <= n <= items.len(),
    ensures
        tame(p + printed_items(items, n)),
        lex_prefix(p + printed_items(items, n), (p + printed_items(items, n)).len() as int)
            == lex_prefix(p, p.len() as int) + tokens_of_items(items, n, p.len() as int),
    decreases items, n,
{
    if n == 0 {
        assert(p + printed_items(items, 0) =~= p);
        assert(lex_prefix(p, p.len() as int) + tokens_of_items(items, 0, p.len() as int)
            =~= lex_prefix(p, p.len() as int));
    } else if n == 1 {
        lemma_lex_tree(p, items[0]);
    } else {
        lemma_lex_items(p, items, n - 1);
        let before = p + printed_items(items, n - 1);
        lemma_lex_mark(before, ' ');
        let spaced = before.push(' ');
        lemma_lex_tree(spaced, items[n - 1]);
        assert(spaced + printed(items[n - 1]) =~= p + printed_items(items, n));
        assert(spaced.len() == p.len() + printed_items(items, n - 1).len() + 1);
        assert(lex_prefix(p, p.len() as int) + tokens_of_items(items, n - 1, p.len() as int)
            + tokens_of(items[n - 1], spaced.len() as int) =~= lex_prefix(p, p.len() as int)
            + tokens_of_items(items, n, p.len() as int));
    }
}

/// The stack after the first tokens does not depend on the tokens that
/// follow.
pub proof fn lemma_stack_of_longer(x: Seq<TokenView>, y: Seq<TokenView>, n: int)
    requires
        0 <= n <= x.len(),
    ensures
        stack_after(x + y, n) == stack_after(x, n),
    decreases n,
{
    if n > 0 {
        lemma_stack_of_longer(x, y, n - 1);
        assert((x + y)[n - 1] == x[n - 1]);
    }
}

/// The stack with one more item in its innermost open list.
pub open spec fn with_item(stack: Seq<FrameView>, t: Tree) -> Seq<FrameView> {
    stack.drop_last().push(
        FrameView { items: stack.last().items.push(t), opened_at: stack.last().opened_at },
    )
}

/// The stack with the first `n` items in its innermost open list.
pub open spec fn with_items(stack: Seq<FrameView>, items: Seq<Tree>, n: int) -> Seq<FrameView>
    decreases n,
{
    if n <= 0 || n > items.len() {
        stack
    } else {
        with_item(with_items(stack, items, n - 1), items[n - 1])
    }
}

pub proof fn lemma_with_items(stack: Seq<FrameView>, items: Seq<Tree>, n: int)
    requires
        stack.len() >= 1,
        0 <= n <= items.len(),
    ensures
        with_items(stack, items, n).len() == stack.len(),
        with_items(stack, items, n).drop_last() == stack.drop_last(),
        with_items(stack, items, n).last().items == stack.last().items + items.take(n),
        with_items(stack, items, n).last().opened_at == stack.last().opened_at,
    decreases n,
{
    if n > 0 {
        lemma_with_items(stack, items, n - 1);
        let before = with_items(stack, items, n - 1);
        let after = with_items(stack, items, n);
        assert(after.drop_last() =~= before.drop_last());
        assert(stack.last().items + items.take(n) =~= (stack.last().items + items.take(n - 1)).push(
            items[n - 1],
        ));
    } else {
        assert(stack.last().items + items.take(0) =~= stack.last().items);
    }
}

/// Reading the tokens of a tree puts the tree into the innermost open list.
pub proof fn lemma_build_tree(before: Seq<TokenView>, stack: Seq<FrameView>, t: Tree, o: int)
    requires
        stack_after(before, before.len() as int) == Ok::<Seq<FrameView>, Fault>(stack),
        stack.len() >= 1,
    ensures
        stack_after(before + tokens_of(t, o), (before + tokens_of(t, o)).len() as int)
            == Ok::<Seq<FrameView>, Fault>(with_item(stack, t)),
    decreases t, 0nat,
{
    match t {
        Tree::Atom(a) => {
            let all = before + tokens_of(t, o);
            lemma_stack_of_longer(before, tokens_of(t, o), before.len() as int);
            assert(all[before.len() as int] == tokens_of(t, o)[0]);
        },
        Tree::List(items) => {
            let open = TokenView { kind: TokenKind::Open, text: seq!['('], offset: o };
            let opened = before.push(open);
            lemma_stack_of_longer(before, seq![open], before.len() as int);
            assert(opened =~= before + seq![open]);
            let stack1 = stack.push(FrameView { items: Seq::empty(), opened_at: o });
            assert(stack_after(opened, opened.len() as int) == Ok::<Seq<FrameView>, Fault>(stack1));
            lemma_build_items(opened, stack1, items, items.len() as int, o + 1);
            let inner = tokens_of_items(items, items.len() as int, o + 1);
            let filled = opened + inner;
            let stack2 = with_items(stack1, items, items.len() as int);
            lemma_with_items(stack1, items, items.len() as int);
            let close = tokens_of(t, o).last();
            let all = filled.push(close);
            assert(all =~= before + tokens_of(t, o));
            lemma_stack_of_longer(filled, seq![close], filled.len() as int);
            assert(all =~= filled + seq![close]);
            assert(stack2.drop_last() =~= stack);
            assert(stack2.last().items =~= items) by {
                assert(items.take(items.len() as int) =~= items);
                assert(Seq::<Tree>::empty() + items =~= items);
            }
            assert(shift(stack2, close) == Ok::<Seq<FrameView>, Fault>(with_item(stack, t)));
        },
    }
}

pub proof fn lemma_build_items(
    before: Seq<TokenView>,
    stack: Seq<FrameView>,
    items: Seq<Tree>,
    n: int,
    o: int,
)
    requires
        stack_after(before, before.len() as int) == Ok::<Seq<FrameView>, Fault>(stack),
        stack.len() >= 1,
        0 <= n <= items.len(),
    ensures
        stack_after(
            before + tokens_of_items(items, n, o),
            (before + tokens_of_items(items, n, o)).len() as int,
        ) == Ok::<Seq<FrameView>, Fault>(with_items(stack, items, n)),
    decreases items, n,
{
    if n == 0 {
        assert(before + tokens_of_items(items, 0, o) =~= before);
    } else if n == 1 {
        lemma_build_tree(before, stack, items[0], o);
    } else {
        lemma_build_items(before, stack, items, n - 1, o);
        let so_far = before + tokens_of_items(items, n - 1, o);
        lemma_with_items(stack, items, n - 1);
        let next = o + printed_items(items, n - 1).len() + 1;
        lemma_build_tree(so_far, with_items(stack, items, n - 1), items[n - 1], next);
        assert(so_far + tokens_of(items[n - 1], next) =~= before + tokens_of_items(items, n, o));
    }
}

/// A printable tree that is written is read back as it was.
pub proof fn lemma_printed_tree_is_read_back(t: Tree)
    requires
        printable(t),
    ensures
        text_trees(printed(t)) == Ok::<Seq<Tree>, Fault>(seq![t]),
{
    let s = printed(t);
    let none = Seq::<char>::empty();
    lemma_printed_is_tame(t);
    lemma_tame_is_clean(s);
    lemma_lex_tree(none, t);
    assert(none + s =~= s);
    let tokens = tokens_of(t, 0);
    assert(lex_prefix(s, s.len() as int) =~= tokens) by {
        assert(lex_prefix(none, 0) =~= Seq::<TokenView>::empty());
        assert(Seq::<TokenView>::empty() + tokens =~= tokens);
    }
    let start = seq![FrameView { items: Seq::empty(), opened_at: 0 }];
    let no_tokens = Seq::<TokenView>::empty();
    lemma_build_tree(no_tokens, start, t, 0);
    assert(no_tokens + tokens =~= tokens);
    assert(with_item(start, t)[0].items =~= seq![t]);
}

} // verus!
