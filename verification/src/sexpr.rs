//! Trees of parenthesised expressions, and the parser that builds them from
//! tokens.

use vstd::prelude::*;
use crate::error::{ErrorKind, Fault, PlannerError, fault_at};
use crate::lexer::{
    Token, TokenKind, TokenView, blank_comments, lex, strip_comments, scan_tokens,
    tokens_view,
};
use crate::text::chars_of;

verus! {

/// A parenthesised expression: an atom, or a list of expressions.
#[derive(Debug)]
pub enum SExpr {
    Atom(Vec<char>),
    List(Vec<SExpr>),
}

/// The mathematical tree behind an `SExpr`.
pub enum Tree {
    Atom(Seq<char>),
    List(Seq<Tree>),
}

impl View for SExpr {
    type V = Tree;

    open spec fn view(&self) -> Tree
        decreases self,
    {
        match self {
            SExpr::Atom(a) => Tree::Atom(a@),
            SExpr::List(items) => Tree::List(
                Seq::new(
                    items@.len(),
                    |i: int|
                        if 0 <= i < items@.len() {
                            items@[i]@
                        } else {
                            Tree::Atom(Seq::empty())
                        },
                ),
            ),
        }
    }
}

pub open spec fn trees_view(items: Seq<SExpr>) -> Seq<Tree> {
    Seq::new(items.len(), |i: int| items[i]@)
}

pub proof fn lemma_list_view(items: Vec<SExpr>)
    ensures
        SExpr::List(items)@ == Tree::List(trees_view(items@)),
{
    assert(SExpr::List(items)@->List_0 =~= trees_view(items@));
}

pub proof fn lemma_trees_view_push(items: Seq<SExpr>, e: SExpr)
    ensures
        trees_view(items.push(e)) == trees_view(items).push(e@),
{
    assert(trees_view(items.push(e)) =~= trees_view(items).push(e@));
}

/// A list under construction, and where its opening parenthesis stands.
pub struct Frame {
    pub items: Vec<SExpr>,
    pub opened_at: usize,
}

pub struct FrameView {
    pub items: Seq<Tree>,
    pub opened_at: int,
}

impl View for Frame {
    type V = FrameView;

    open spec fn view(&self) -> FrameView {
        FrameView { items: trees_view(self.items@), opened_at: self.opened_at as int }
    }
}

pub open spec fn frames_view(frames: Seq<Frame>) -> Seq<FrameView> {
    Seq::new(frames.len(), |i: int| frames[i]@)
}

/// One step of the parser. An opening parenthesis starts a list; an atom
/// joins the innermost open list; a closing parenthesis finishes the
/// innermost open list and adds it to the one around it. A closing
/// parenthesis with no list open is a fault at its offset.
pub open spec fn shift(stack: Seq<FrameView>, t: TokenView) -> Result<Seq<FrameView>, Fault> {
    match t.kind {
        TokenKind::Open => Ok(stack.push(FrameView { items: Seq::empty(), opened_at: t.offset })),
        TokenKind::Atom => Ok(
            stack.drop_last().push(
                FrameView {
                    items: stack.last().items.push(Tree::Atom(t.text)),
                    opened_at: stack.last().opened_at,
                },
            ),
        ),
        TokenKind::Close => if stack.len() < 2 {
            Err(fault_at(ErrorKind::MalformedSyntax, t.offset))
        } else {
            let within = stack.drop_last();
            Ok(
                within.drop_last().push(
                    FrameView {
                        items: within.last().items.push(Tree::List(stack.last().items)),
                        opened_at: within.last().opened_at,
                    },
                ),
            )
        },
    }
}

/// The stack of open lists after the first `n` tokens. The bottom frame
/// collects the top-level expressions.
pub open spec fn stack_after(tokens: Seq<TokenView>, n: int) -> Result<Seq<FrameView>, Fault>
    decreases n,
{
    if n <= 0 || n > tokens.len() {
        Ok(seq![FrameView { items: Seq::empty(), opened_at: 0 }])
    } else {
        match stack_after(tokens, n - 1) {
            Ok(stack) => shift(stack, tokens[n - 1]),
            Err(f) => Err(f),
        }
    }
}

/// The top-level expressions of a token sequence. A list left open at the
/// end is a fault at the offset of its opening parenthesis.
pub open spec fn trees_of(tokens: Seq<TokenView>) -> Result<Seq<Tree>, Fault> {
    match stack_after(tokens, tokens.len() as int) {
        Ok(stack) => if stack.len() == 1 {
            Ok(stack[0].items)
        } else {
            Err(fault_at(ErrorKind::MalformedSyntax, stack.last().opened_at))
        },
        Err(f) => Err(f),
    }
}

pub proof fn lemma_fault_persists(tokens: Seq<TokenView>, n: int, m: int)
    requires
        0 <= n <= m <= tokens.len(),
        stack_after(tokens, n) is Err,
    ensures
        stack_after(tokens, m) == stack_after(tokens, n),
    decreases m - n,
{
    if n < m {
        lemma_fault_persists(tokens, n, m - 1);
    }
}

/// Builds the top-level expressions from tokens.
pub fn extract_sub_formulas(tokens: Vec<Token>) -> (r: Result<Vec<SExpr>, PlannerError>)
    ensures
        match trees_of(tokens_view(tokens@)) {
            Ok(trees) => r is Ok && trees_view(r->Ok_0@) == trees,
            Err(f) => r is Err && r->Err_0@ == f,
        },
{
    let ghost all = tokens_view(tokens@);
    let mut stack: Vec<Frame> = Vec::new();
    stack.push(Frame { items: Vec::new(), opened_at: 0 });
    proof {
        assert(trees_view(Seq::<SExpr>::empty()) =~= Seq::<Tree>::empty());
        assert(frames_view(stack@) =~= seq![FrameView { items: Seq::empty(), opened_at: 0 }]);
    }
    let mut rest = tokens;
    let mut pending: Vec<Token> = Vec::new();
    // The tokens are consumed from the back of a reversed copy, so that each
    // atom's text moves into the tree without being copied.
    while rest.len() > 0
        invariant
            tokens_view(rest@) + tokens_view(pending@).reverse() == all,
        decreases rest.len(),
    {
        let ghost before = rest@;
        let ghost held = pending@;
        let t = rest.pop().unwrap();
        pending.push(t);
        proof {
            assert(tokens_view(rest@) + tokens_view(pending@).reverse() =~= tokens_view(before)
                + tokens_view(held).reverse());
        }
    }
    proof {
        assert(tokens_view(pending@).reverse() =~= all);
    }
    let mut i: usize = 0;
    let total = pending.len();
    while pending.len() > 0
        invariant
            all == tokens_view(tokens@),
            total == all.len(),
            i + pending.len() == total,
            forall|k: int| 0 <= k < pending.len() ==> (#[trigger] pending@[k])@ == all[total - 1 - k],
            stack.len() >= 1,
            stack_after(all, i as int) == Ok::<Seq<FrameView>, Fault>(frames_view(stack@)),
        decreases pending.len(),
    {
        let t = pending.pop().unwrap();
        assert(t@ == all[i as int]);
        let ghost old_stack = frames_view(stack@);
        match t.kind {
            TokenKind::Open => {
                stack.push(Frame { items: Vec::new(), opened_at: t.offset });
                proof {
                    assert(trees_view(Seq::<SExpr>::empty()) =~= Seq::<Tree>::empty());
                    assert(frames_view(stack@) =~= old_stack.push(
                        FrameView { items: Seq::empty(), opened_at: t.offset as int },
                    ));
                }
            },
            TokenKind::Atom => {
                let mut top = stack.pop().unwrap();
                let ghost below = frames_view(stack@);
                let ghost items_before = top.items@;
                let atom = SExpr::Atom(t.text);
                top.items.push(atom);
                stack.push(top);
                proof {
                    lemma_trees_view_push(items_before, atom);
                    assert(below =~= old_stack.drop_last());
                    assert(frames_view(stack@) =~= below.push(
                        FrameView {
                            items: old_stack.last().items.push(Tree::Atom(t.text@)),
                            opened_at: old_stack.last().opened_at,
                        },
                    ));
                }
            },
            TokenKind::Close => {
                if stack.len() < 2 {
                    proof {
                        assert(old_stack.len() == stack.len());
                        assert(shift(old_stack, all[i as int]) is Err);
                        assert(stack_after(all, i + 1) == shift(old_stack, all[i as int]));
                        lemma_fault_persists(all, i + 1, all.len() as int);
                    }
                    return Err(PlannerError::at(ErrorKind::MalformedSyntax, t.offset));
                }
                let done = stack.pop().unwrap();
                let ghost within = frames_view(stack@);
                let mut parent = stack.pop().unwrap();
                let ghost below = frames_view(stack@);
                let ghost items_before = parent.items@;
                let list = SExpr::List(done.items);
                parent.items.push(list);
                stack.push(parent);
                proof {
                    lemma_list_view(done.items);
                    lemma_trees_view_push(items_before, list);
                    assert(within =~= old_stack.drop_last());
                    assert(below =~= within.drop_last());
                    assert(frames_view(stack@) =~= below.push(
                        FrameView {
                            items: within.last().items.push(Tree::List(old_stack.last().items)),
                            opened_at: within.last().opened_at,
                        },
                    ));
                }
            },
        }
        i = i + 1;
    }
    if stack.len() != 1 {
        let open = &stack[stack.len() - 1];
        return Err(PlannerError::at(ErrorKind::MalformedSyntax, open.opened_at));
    }
    let bottom = stack.pop().unwrap();
    Ok(bottom.items)
}

/// The number of bytes that a character takes in a text.
pub open spec fn utf8_width(c: char) -> int {
    if (c as u32) < 0x80 {
        1
    } else if (c as u32) < 0x800 {
        2
    } else if (c as u32) < 0x10000 {
        3
    } else {
        4
    }
}

/// The byte at which the character `n` of a text starts.
pub open spec fn byte_offset(s: Seq<char>, n: int) -> int
    decreases n,
{
    if n <= 0 || n > s.len() {
        0
    } else {
        byte_offset(s, n - 1) + utf8_width(s[n - 1])
    }
}

/// A fault with its offset, which counts characters, turned into one that
/// counts bytes. An offset that no machine word holds is dropped.
pub open spec fn in_bytes(s: Seq<char>, f: Fault) -> Fault {
    Fault {
        offset: match f.offset {
            Some(o) => if byte_offset(s, o) <= usize::MAX {
                Some(byte_offset(s, o))
            } else {
                None
            },
            None => None,
        },
        ..f
    }
}

fn width_of(c: char) -> (w: usize)
    ensures
        w == utf8_width(c),
{
    let v = c as u32;
    if v < 0x80 {
        1
    } else if v < 0x800 {
        2
    } else if v < 0x10000 {
        3
    } else {
        4
    }
}

pub(crate) fn offset_in_bytes(s: &Vec<char>, error: PlannerError) -> (r: PlannerError)
    ensures
        r@ == in_bytes(s@, error@),
{
    match error.offset {
        None => error,
        Some(at) => {
            let mut bytes: usize = 0;
            let mut i: usize = 0;
            let end = if at <= s.len() {
                at
            } else {
                0
            };
            while i < end
                invariant
                    i <= end <= s.len(),
                    error.offset == Some(at),
                    bytes == byte_offset(s@, i as int),
                    byte_offset(s@, end as int) == byte_offset(s@, at as int),
                decreases end - i,
            {
                let w = width_of(s[i]);
                if bytes > usize::MAX - w {
                    proof {
                        assert(byte_offset(s@, i + 1) == bytes + w);
                        lemma_byte_offset_grows(s@, i + 1, end as int);
                    }
                    return PlannerError { kind: error.kind, offset: None, token: error.token };
                }
                bytes = bytes + w;
                i = i + 1;
            }
            PlannerError { kind: error.kind, offset: Some(bytes), token: error.token }
        },
    }
}

proof fn lemma_byte_offset_grows(s: Seq<char>, n: int, m: int)
    requires
        0 <= n <= m <= s.len(),
    ensures
        byte_offset(s, n) <= byte_offset(s, m),
    decreases m - n,
{
    if n < m {
        lemma_byte_offset_grows(s, n, m - 1);
    }
}

/// The top-level expressions of a text: comments are blanked, the rest is cut
/// into tokens, and the tokens are nested by their parentheses. The offset of
/// a fault counts the bytes of the text before it.
pub open spec fn text_trees(s: Seq<char>) -> Result<Seq<Tree>, Fault> {
    match lex(strip_comments(s)) {
        Ok(tokens) => match trees_of(tokens) {
            Ok(trees) => Ok(trees),
            Err(f) => Err(in_bytes(s, f)),
        },
        Err(f) => Err(in_bytes(s, f)),
    }
}

/// Reads the top-level expressions of a text.
pub fn read_expressions(content: &str) -> (r: Result<Vec<SExpr>, PlannerError>)
    ensures
        match text_trees(content@) {
            Ok(trees) => r is Ok && trees_view(r->Ok_0@) == trees,
            Err(f) => r is Err && r->Err_0@ == f,
        },
{
    let raw = chars_of(content);
    let cleaned = blank_comments(&raw);
    match scan_tokens(&cleaned) {
        Ok(tokens) => match extract_sub_formulas(tokens) {
            Ok(trees) => Ok(trees),
            Err(e) => Err(offset_in_bytes(&raw, e)),
        },
        Err(e) => Err(offset_in_bytes(&raw, e)),
    }
}

} // verus!
