//! Texts as a reader first meets them: a text without its comments and
//! spare white space, the first balanced group of a text, and the top-level
//! tokens of a formula.

use vstd::prelude::*;
use crate::error::{ErrorKind, Fault, PlannerError, fault_at};
use crate::lexer::{blank_comments, is_atom_char, last_quote, quoted, strip_comments};
use crate::sexpr::{in_bytes, offset_in_bytes};
use crate::text::{chars_of, is_space, names_view, string_of};

verus! {

/// Whether a character is white space: a space, a tab, a line feed or a
/// carriage return.
pub fn space_char(c: char) -> (r: bool)
    ensures
        r == is_space(c),
{
    c == ' ' || c == '\t' || c == '\n' || c == '\r'
}

/// The first `n` characters of `s` with their white space squeezed: white
/// space is dropped, and one space stands between two words that white space
/// parted.
pub open spec fn squeezed(s: Seq<char>, n: int) -> Seq<char>
    decreases n,
{
    if n <= 0 || n > s.len() {
        Seq::empty()
    } else {
        let before = squeezed(s, n - 1);
        let c = s[n - 1];
        if is_space(c) {
            before
        } else if n >= 2 && is_space(s[n - 2]) && before.len() > 0 {
            before.push(' ').push(c)
        } else {
            before.push(c)
        }
    }
}

/// A text cleaned: its comments are gone, and its words, the runs of
/// characters that are no white space, are joined by single spaces.
pub open spec fn cleaned_text(s: Seq<char>) -> Seq<char> {
    squeezed(strip_comments(s), s.len() as int)
}

/// Cleans a text: removes every comment, from `;` to the end of its line,
/// and joins the words that are left by single spaces.
pub fn clean_pddl_content(content: &str) -> (cleaned: String)
    ensures
        cleaned@ == cleaned_text(content@),
{
    let raw = chars_of(content);
    let blanked = blank_comments(&raw);
    let mut out: Vec<char> = Vec::new();
    let mut i: usize = 0;
    while i < blanked.len()
        invariant
            i <= blanked.len(),
            out@ == squeezed(blanked@, i as int),
        decreases blanked.len() - i,
    {
        let c = blanked[i];
        if !space_char(c) {
            if i >= 1 && space_char(blanked[i - 1]) && out.len() > 0 {
                out.push(' ');
            }
            out.push(c);
        }
        i = i + 1;
    }
    string_of(&out)
}

/// Whether white space is a space and stands between two characters that
/// are none: the shape of a cleaned text.
pub open spec fn is_clean(s: Seq<char>) -> bool {
    &&& forall|i: int| 0 <= i < s.len() ==> (is_space(#[trigger] s[i]) ==> s[i] == ' ')
    &&& forall|i: int|
        0 <= i < s.len() && is_space(#[trigger] s[i]) ==> 0 < i && i + 1 < s.len() && !is_space(
            s[i - 1],
        ) && !is_space(s[i + 1])
}

/// What has been squeezed so far is clean once it ends: its white space is
/// single spaces between words, and it ends with a character of a word.
pub proof fn lemma_squeezed_shape(s: Seq<char>, n: int)
    requires
        0 <= n <= s.len(),
    ensures
        is_clean(squeezed(s, n)),
        squeezed(s, n).len() > 0 ==> !is_space(squeezed(s, n).last()),
        forall|i: int|
            0 <= i < squeezed(s, n).len() && !is_space(#[trigger] squeezed(s, n)[i]) ==> exists|k: int|
                0 <= k < n && s[k] == squeezed(s, n)[i],
    decreases n,
{
    if n > 0 {
        lemma_squeezed_shape(s, n - 1);
        let before = squeezed(s, n - 1);
        let after = squeezed(s, n);
        let c = s[n - 1];
        if !is_space(c) {
            assert forall|i: int| 0 <= i < after.len() && !is_space(#[trigger] after[i]) implies exists|
                k: int,
            | 0 <= k < n && s[k] == after[i] by {
                if i < before.len() {
                    assert(after[i] == before[i]);
                    let k = choose|k: int| 0 <= k < n - 1 && s[k] == before[i];
                    assert(s[k] == after[i]);
                } else {
                    assert(s[n - 1] == after[i]);
                }
            }
            assert forall|i: int| 0 <= i < after.len() && is_space(#[trigger] after[i]) implies 0 < i
                && i + 1 < after.len() && !is_space(after[i - 1]) && !is_space(after[i + 1])
                && after[i] == ' ' by {
                if i < before.len() {
                    assert(after[i] == before[i]);
                    assert(after[i - 1] == before[i - 1]);
                    if i + 1 < before.len() {
                        assert(after[i + 1] == before[i + 1]);
                    }
                } else {
                    assert(i == before.len());
                    assert(after[i - 1] == before.last());
                }
            }
        }
    }
}

/// A cleaned text holds no comment sign and no white space but single
/// spaces between its words; it neither begins nor ends with one.
pub proof fn lemma_cleaned_is_clean(s: Seq<char>)
    ensures
        is_clean(cleaned_text(s)),
        forall|i: int| 0 <= i < cleaned_text(s).len() ==> #[trigger] cleaned_text(s)[i] != ';',
{
    let t = strip_comments(s);
    lemma_squeezed_shape(t, t.len() as int);
    let c = cleaned_text(s);
    assert forall|i: int| 0 <= i < c.len() implies #[trigger] c[i] != ';' by {
        if !is_space(c[i]) {
            let k = choose|k: int| 0 <= k < t.len() && t[k] == c[i];
            assert(t[k] != ';');
        }
    }
}

/// A text without a comment sign has no comment.
pub proof fn lemma_no_comment(s: Seq<char>, i: int)
    requires
        forall|k: int| 0 <= k < s.len() ==> #[trigger] s[k] != ';',
    ensures
        !crate::lexer::in_comment(s, i),
    decreases i,
{
    if 0 <= i < s.len() && i > 0 {
        lemma_no_comment(s, i - 1);
    }
}

/// Squeezing the start of a clean text gives that start, without the space
/// it may end with.
pub proof fn lemma_squeezed_clean(s: Seq<char>, n: int)
    requires
        is_clean(s),
        0 <= n <= s.len(),
    ensures
        squeezed(s, n) == if n > 0 && is_space(s[n - 1]) {
            s.take(n - 1)
        } else {
            s.take(n)
        },
    decreases n,
{
    if n > 0 {
        lemma_squeezed_clean(s, n - 1);
        let c = s[n - 1];
        if is_space(c) {
            assert(!is_space(s[n - 2]));
            assert(squeezed(s, n) == s.take(n - 1));
        } else if n >= 2 && is_space(s[n - 2]) {
            assert(n - 2 > 0);
            assert(squeezed(s, n - 1) == s.take(n - 2));
            assert(s[n - 2] == ' ');
            assert(s.take(n - 2).push(' ').push(c) =~= s.take(n));
        } else {
            assert(s.take(n - 1).push(c) =~= s.take(n));
        }
    } else {
        assert(s.take(0) =~= Seq::<char>::empty());
    }
}

/// Cleaning a cleaned text changes nothing.
pub proof fn lemma_cleaning_twice(s: Seq<char>)
    ensures
        cleaned_text(cleaned_text(s)) == cleaned_text(s),
{
    let c = cleaned_text(s);
    lemma_cleaned_is_clean(s);
    assert(strip_comments(c) =~= c) by {
        assert forall|i: int| 0 <= i < c.len() implies strip_comments(c)[i] == c[i] by {
            lemma_no_comment(c, i);
        }
    }
    lemma_squeezed_clean(c, c.len() as int);
    assert(c.take(c.len() as int) =~= c);
}

/// The characters among the first `n` that are no white space, in their
/// order.
pub open spec fn letters(s: Seq<char>, n: int) -> Seq<char>
    decreases n,
{
    if n <= 0 || n > s.len() {
        Seq::empty()
    } else if is_space(s[n - 1]) {
        letters(s, n - 1)
    } else {
        letters(s, n - 1).push(s[n - 1])
    }
}

pub proof fn lemma_letters_prefix(s: Seq<char>, more: Seq<char>, n: int)
    requires
        0 <= n <= s.len(),
    ensures
        letters(s + more, n) == letters(s, n),
    decreases n,
{
    if n > 0 {
        lemma_letters_prefix(s, more, n - 1);
        assert((s + more)[n - 1] == s[n - 1]);
    }
}

/// Squeezing keeps every character that is no white space, in its place
/// among them.
pub proof fn lemma_squeezed_letters(s: Seq<char>, n: int)
    requires
        0 <= n <= s.len(),
    ensures
        letters(squeezed(s, n), squeezed(s, n).len() as int) == letters(s, n),
    decreases n,
{
    if n > 0 {
        lemma_squeezed_letters(s, n - 1);
        let before = squeezed(s, n - 1);
        let c = s[n - 1];
        if !is_space(c) {
            if n >= 2 && is_space(s[n - 2]) && before.len() > 0 {
                let spaced = before.push(' ');
                assert(spaced =~= before + seq![' ']);
                lemma_letters_prefix(before, seq![' '], before.len() as int);
                assert(letters(spaced, spaced.len() as int) == letters(before, before.len() as int));
                assert(spaced.push(c) =~= spaced + seq![c]);
                lemma_letters_prefix(spaced, seq![c], spaced.len() as int);
            } else {
                assert(before.push(c) =~= before + seq![c]);
                lemma_letters_prefix(before, seq![c], before.len() as int);
            }
        }
    }
}

/// A cleaned text holds the characters of the text that are neither white
/// space nor part of a comment, in their order.
pub proof fn lemma_cleaned_keeps_words(s: Seq<char>)
    ensures
        letters(cleaned_text(s), cleaned_text(s).len() as int) == letters(
            strip_comments(s),
            s.len() as int,
        ),
{
    lemma_squeezed_letters(strip_comments(s), s.len() as int);
}

/// What the first balanced group of a text is so far: the characters taken,
/// how many parentheses are open, whether a group has begun, and whether it
/// has ended.
pub struct Taking {
    pub out: Seq<char>,
    pub depth: int,
    pub started: bool,
    pub done: bool,
}

/// The group taken from the first `n` characters: nothing before the first
/// `(`, then every character up to the `)` at which as many parentheses are
/// closed as were opened.
pub open spec fn taken(s: Seq<char>, n: int) -> Taking
    decreases n,
{
    if n <= 0 || n > s.len() {
        Taking { out: Seq::empty(), depth: 0, started: false, done: false }
    } else {
        let t = taken(s, n - 1);
        let c = s[n - 1];
        let depth = if c == '(' {
            t.depth + 1
        } else if c == ')' {
            t.depth - 1
        } else {
            t.depth
        };
        if t.done {
            t
        } else if t.started || c == '(' {
            Taking { out: t.out.push(c), depth, started: true, done: depth == 0 }
        } else {
            Taking { depth, ..t }
        }
    }
}

/// The first balanced group of a text: from its first `(` to the matching
/// `)`. A group that is never closed runs to the end of the text, and a text
/// without a `(` has none.
pub open spec fn first_group(s: Seq<char>) -> Seq<char> {
    taken(s, s.len() as int).out
}

proof fn lemma_taken_depth(s: Seq<char>, n: int)
    requires
        0 <= n <= s.len(),
    ensures
        -n <= taken(s, n).depth <= n,
    decreases n,
{
    if n > 0 {
        lemma_taken_depth(s, n - 1);
    }
}

/// Takes the first balanced group of a text: the first `(`, what follows it,
/// and the `)` that matches it, and nothing of what stands before or after.
pub fn extract_balanced_expression(content: &str) -> (group: String)
    ensures
        group@ == first_group(content@),
{
    let raw = chars_of(content);
    let mut out: Vec<char> = Vec::new();
    let mut depth: i128 = 0;
    let mut started = false;
    let mut done = false;
    let mut i: usize = 0;
    while i < raw.len()
        invariant
            i <= raw.len(),
            out@ == taken(raw@, i as int).out,
            depth == taken(raw@, i as int).depth,
            started == taken(raw@, i as int).started,
            done == taken(raw@, i as int).done,
        decreases raw.len() - i,
    {
        proof {
            lemma_taken_depth(raw@, i as int);
        }
        let c = raw[i];
        if !done {
            if c == '(' {
                depth = depth + 1;
            } else if c == ')' {
                depth = depth - 1;
            }
            if started || c == '(' {
                out.push(c);
                started = true;
                done = depth == 0;
            }
        }
        i = i + 1;
    }
    string_of(&out)
}

/// Where the first parenthesis of a text opens a group that is closed, the
/// first group is the text from that parenthesis to the one that closes it:
/// it begins with `(`, ends with `)`, and no shorter start of it is balanced.
pub proof fn lemma_first_group(s: Seq<char>, i: int, j: int)
    requires
        0 <= i < j < s.len(),
        s[i] == '(',
        forall|k: int| 0 <= k < i ==> s[k] != '(' && s[k] != ')',
        taken(s, j + 1).depth == 0,
        forall|k: int| i < k <= j ==> taken(s, k).depth != 0,
    ensures
        first_group(s) == s.subrange(i, j + 1),
{
    lemma_taken_before(s, i, i);
    lemma_taken_within(s, i, j, j + 1);
    lemma_taken_after(s, j + 1, s.len() as int);
}

proof fn lemma_taken_before(s: Seq<char>, i: int, n: int)
    requires
        0 <= n <= i <= s.len(),
        forall|k: int| 0 <= k < i ==> s[k] != '(' && s[k] != ')',
    ensures
        taken(s, n) == (Taking { out: Seq::empty(), depth: 0, started: false, done: false }),
    decreases n,
{
    if n > 0 {
        lemma_taken_before(s, i, n - 1);
    }
}

proof fn lemma_taken_within(s: Seq<char>, i: int, j: int, n: int)
    requires
        0 <= i < n <= j + 1 <= s.len(),
        s[i] == '(',
        forall|k: int| 0 <= k < i ==> s[k] != '(' && s[k] != ')',
        forall|k: int| i < k <= j ==> taken(s, k).depth != 0,
        taken(s, j + 1).depth == 0,
    ensures
        taken(s, n).out == s.subrange(i, n),
        taken(s, n).started,
        taken(s, n).done == (n == j + 1),
    decreases n,
{
    if n == i + 1 {
        lemma_taken_before(s, i, i);
        assert(taken(s, n).out =~= s.subrange(i, n));
        assert(taken(s, n).depth == 1);
        if n == j + 1 {
            assert(false);
        }
    } else {
        lemma_taken_within(s, i, j, n - 1);
        assert(!taken(s, n - 1).done);
        assert(taken(s, n).out =~= s.subrange(i, n));
    }
}

proof fn lemma_taken_after(s: Seq<char>, m: int, n: int)
    requires
        0 <= m <= n <= s.len(),
        taken(s, m).done,
    ensures
        taken(s, n) == taken(s, m),
    decreases n,
{
    if n > m {
        lemma_taken_after(s, m, n - 1);
    }
}

/// What the top-level tokens of a text are so far: the tokens that are
/// complete, the token under way, and how many parentheses are open.
pub struct Grouping {
    pub tokens: Seq<Seq<char>>,
    pub current: Seq<char>,
    pub depth: nat,
}

/// The top-level tokens of the first `n` characters, or the fault of a `)`
/// that closes nothing, found at that parenthesis.
///
/// Outside a group, white space ends an atom and a `(` ends an atom and
/// begins a group. Inside a group every character belongs to it, up to the
/// `)` that closes it. What stands inside quotes belongs to the token under
/// way, parentheses and white space too.
pub open spec fn grouped(t: Seq<char>, n: int) -> Result<Grouping, Fault>
    decreases n,
{
    if n <= 0 || n > t.len() {
        Ok(Grouping { tokens: Seq::empty(), current: Seq::empty(), depth: 0 })
    } else {
        match grouped(t, n - 1) {
            Err(f) => Err(f),
            Ok(g) => {
                let c = t[n - 1];
                if is_atom_char(t, n - 1) {
                    Ok(Grouping { current: g.current.push(c), ..g })
                } else if c == '(' {
                    if g.depth == 0 && g.current.len() > 0 {
                        Ok(
                            Grouping {
                                tokens: g.tokens.push(g.current),
                                current: seq!['('],
                                depth: 1,
                            },
                        )
                    } else {
                        Ok(Grouping { current: g.current.push(c), depth: g.depth + 1, ..g })
                    }
                } else if c == ')' {
                    if g.depth == 0 {
                        Err(fault_at(ErrorKind::MalformedSyntax, n - 1))
                    } else if g.depth == 1 {
                        Ok(
                            Grouping {
                                tokens: g.tokens.push(g.current.push(c)),
                                current: Seq::empty(),
                                depth: 0,
                            },
                        )
                    } else {
                        Ok(
                            Grouping {
                                current: g.current.push(c),
                                depth: (g.depth - 1) as nat,
                                ..g
                            },
                        )
                    }
                } else if g.depth > 0 {
                    Ok(Grouping { current: g.current.push(c), ..g })
                } else if g.current.len() > 0 {
                    Ok(Grouping { tokens: g.tokens.push(g.current), current: Seq::empty(), ..g })
                } else {
                    Ok(g)
                }
            },
        }
    }
}

/// The top-level tokens of a formula, in the order of the text: each is an
/// atom or a whole group from `(` to the matching `)`. Comments count as
/// white space.
///
/// The text is malformed where a `)` closes nothing (the fault is at that
/// parenthesis), where a quote is left open (at that quote), or where a
/// group is left open (at the end of the text). The offset of a fault counts
/// the bytes of the text before it.
pub open spec fn formula_tokens(s: Seq<char>) -> Result<Seq<Seq<char>>, Fault> {
    let t = strip_comments(s);
    match grouped(t, t.len() as int) {
        Err(f) => Err(in_bytes(s, f)),
        Ok(g) => if quoted(t, t.len() as int) {
            Err(in_bytes(s, fault_at(ErrorKind::MalformedSyntax, last_quote(t, t.len() as int))))
        } else if g.depth > 0 {
            Err(in_bytes(s, fault_at(ErrorKind::MalformedSyntax, t.len() as int)))
        } else if g.current.len() > 0 {
            Ok(g.tokens.push(g.current))
        } else {
            Ok(g.tokens)
        },
    }
}

/// A fault found in a start of the text is the fault of the whole text.
proof fn lemma_grouped_fault_persists(t: Seq<char>, n: int, m: int)
    requires
        0 <= n <= m <= t.len(),
        grouped(t, n) is Err,
    ensures
        grouped(t, m) == grouped(t, n),
    decreases m,
{
    if m > n {
        lemma_grouped_fault_persists(t, n, m - 1);
    }
}

fn push_token(tokens: &mut Vec<String>, current: &Vec<char>)
    ensures
        names_view(final(tokens)@) == names_view(old(tokens)@).push(current@),
{
    let token = string_of(current);
    tokens.push(token);
    assert(names_view(tokens@) =~= names_view(old(tokens)@).push(current@));
}

/// Cuts a formula into its top-level tokens.
pub fn tokenize_formula(formula: &str) -> (r: Result<Vec<String>, PlannerError>)
    ensures
        match formula_tokens(formula@) {
            Ok(tokens) => r is Ok && names_view(r->Ok_0@) == tokens,
            Err(f) => r is Err && r->Err_0@ == f,
        },
{
    let raw = chars_of(formula);
    let t = blank_comments(&raw);
    let mut tokens: Vec<String> = Vec::new();
    let mut current: Vec<char> = Vec::new();
    let mut depth: usize = 0;
    let mut in_quotes = false;
    let mut quote_at: usize = 0;
    let mut i: usize = 0;
    assert(names_view(tokens@) =~= Seq::<Seq<char>>::empty());
    while i < t.len()
        invariant
            i <= t.len(),
            raw@ == formula@,
            t@ == strip_comments(raw@),
            in_quotes == quoted(t@, i as int),
            quote_at == last_quote(t@, i as int),
            depth <= i,
            grouped(t@, i as int) == Ok::<Grouping, Fault>(
                Grouping { tokens: names_view(tokens@), current: current@, depth: depth as nat },
            ),
        decreases t.len() - i,
    {
        let c = t[i];
        let atom_char = in_quotes || c == '"' || !(space_char(c) || c == '(' || c == ')');
        assert(atom_char == is_atom_char(t@, i as int));
        if atom_char {
            current.push(c);
        } else if c == '(' {
            if depth == 0 && current.len() > 0 {
                push_token(&mut tokens, &current);
                current = Vec::new();
                current.push('(');
                depth = 1;
                assert(current@ =~= seq!['(']);
            } else {
                current.push(c);
                depth = depth + 1;
            }
        } else if c == ')' {
            if depth == 0 {
                proof {
                    assert(grouped(t@, i as int) is Ok);
                    assert(grouped(t@, i + 1) == Err::<Grouping, Fault>(
                        fault_at(ErrorKind::MalformedSyntax, i as int),
                    ));
                    lemma_grouped_fault_persists(t@, i + 1, t.len() as int);
                }
                return Err(offset_in_bytes(&raw, PlannerError::at(ErrorKind::MalformedSyntax, i)));
            } else if depth == 1 {
                current.push(c);
                push_token(&mut tokens, &current);
                current = Vec::new();
                depth = 0;
            } else {
                current.push(c);
                depth = depth - 1;
            }
        } else if depth > 0 {
            current.push(c);
        } else if current.len() > 0 {
            push_token(&mut tokens, &current);
            current = Vec::new();
        }
        if c == '"' {
            in_quotes = !in_quotes;
            quote_at = i;
        }
        i = i + 1;
    }
    if in_quotes {
        return Err(offset_in_bytes(&raw, PlannerError::at(ErrorKind::MalformedSyntax, quote_at)));
    }
    if depth > 0 {
        return Err(offset_in_bytes(&raw, PlannerError::at(ErrorKind::MalformedSyntax, t.len())));
    }
    if current.len() > 0 {
        push_token(&mut tokens, &current);
    }
    Ok(tokens)
}

} // verus!
