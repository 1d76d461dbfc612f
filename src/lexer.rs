//! The lexer: a cursor over the text's characters, its line and column, and
//! the indentation stack.
use vstd::prelude::*;
pub use crate::token::{LexError, Token, TokenType};
use crate::chars::{
    char_at, class_contains, find_run_end, in_class, indent_run_width, is_upper,
    lemma_indent_run_width_bound, lemma_run_end_bounds, run_end, CharClass, TAB_WIDTH,
};
use crate::grammar::{is_open_bracket, lemma_lex_at_bounds, lex_at, lex_number, string_body, valid_value_ident};
use crate::position::{column_at, lemma_position_bounds, line_at};
use crate::scan::{is_value_ident, scan_number, scan_string, scan_token, text_of};
use crate::token::{KindView, TokenView};

verus! {

/// The longest text, in characters, that a lexer takes: positions, lines and
/// indentation widths then fit in a `usize`.
pub const MAX_SOURCE_LEN: usize = usize::MAX / 8;

/// The model of a lexer.
pub struct LexState {
    /// The characters of the text.
    pub text: Seq<char>,
    /// How many of them have been consumed.
    pub pos: int,
    /// The indentation widths of the enclosing blocks, innermost last.
    pub stack: Seq<usize>,
    /// The width of the current line while dedents toward it are still due.
    pub pending: Option<usize>,
}

/// An indentation stack starts at 0 and grows strictly.
pub open spec fn stack_ok(s: Seq<usize>) -> bool {
    &&& s.len() > 0
    &&& s[0] == 0
    &&& forall|i: int, j: int| 0 <= i < j < s.len() ==> s[i] < s[j]
}

/// The state of a fresh lexer over `text`.
pub open spec fn initial(text: Seq<char>) -> LexState {
    LexState { text, pos: 0, stack: seq![0usize], pending: None }
}

/// A structural token (indent or dedent) on the line of `st`, at its start.
pub open spec fn structural(kind: TokenType, st: LexState) -> TokenView {
    TokenView { kind: KindView::Plain(kind), line: line_at(st.text, st.pos), column: 0 }
}

/// Indentation handling: a structural token, a failure, or nothing, and the
/// state in which scanning goes on.
pub open spec fn indent_phase(st: LexState) -> (Result<Option<TokenView>, LexError>, LexState) {
    let top = st.stack.last();
    match st.pending {
        Some(w) => {
            if top > w {
                (
                    Ok(Some(structural(TokenType::Dedent, st))),
                    LexState { stack: st.stack.drop_last(), ..st },
                )
            } else if top < w {
                (
                    Err(LexError::MismatchedIndentation { line: line_at(st.text, st.pos) as usize }),
                    st,
                )
            } else {
                (Ok(None), LexState { pending: None, ..st })
            }
        },
        None => {
            if column_at(st.text, st.pos) == 0 {
                let w = indent_run_width(st.text, st.pos);
                let q = run_end(st.text, st.pos, CharClass::Indent);
                if w > top {
                    (
                        Ok(Some(structural(TokenType::Indent, st))),
                        LexState { pos: q, stack: st.stack.push(w as usize), ..st },
                    )
                } else if w < top {
                    (
                        Ok(Some(structural(TokenType::Dedent, st))),
                        LexState {
                            pos: q,
                            stack: st.stack.drop_last(),
                            pending: Some(w as usize),
                            ..st
                        },
                    )
                } else {
                    (Ok(None), LexState { pos: q, ..st })
                }
            } else {
                (Ok(None), st)
            }
        },
    }
}

/// Scanning: skip blanks, then read the token that stands there.
pub open spec fn scan_phase(st: LexState) -> (TokenView, LexState) {
    let start = run_end(st.text, st.pos, CharClass::Blank);
    let (kind, end) = lex_at(st.text, start);
    (
        TokenView { kind, line: line_at(st.text, start), column: column_at(st.text, start) },
        LexState { pos: end, ..st },
    )
}

/// One call of `next_token`: what it returns and the state it leaves.
pub open spec fn step(st: LexState) -> (Result<TokenView, LexError>, LexState) {
    let (r, st1) = indent_phase(st);
    match r {
        Err(e) => (Err(e), st1),
        Ok(Some(t)) => (Ok(t), st1),
        Ok(None) => {
            let (t, st2) = scan_phase(st1);
            (Ok(t), st2)
        },
    }
}

pub open spec fn token_result_view(r: Result<Token, LexError>) -> Result<TokenView, LexError> {
    match r {
        Ok(t) => Ok(t@),
        Err(e) => Err(e),
    }
}

pub open spec fn tokens_view(v: Seq<Token>) -> Seq<TokenView> {
    v.map_values(|t: Token| t@)
}

/// `states` is a run of the lexer in which each step yields the next of `toks`.
pub open spec fn is_run(states: Seq<LexState>, toks: Seq<TokenView>) -> bool {
    &&& states.len() == toks.len() + 1
    &&& forall|i: int| 0 <= i < toks.len() ==> #[trigger] step(states[i]) == (Ok::<TokenView, LexError>(toks[i]), states[i + 1])
}

pub open spec fn is_eof(t: TokenView) -> bool {
    t.kind == KindView::Plain(TokenType::EOF)
}

/// A model that lexing can reach: the position lies in the text, the stack
/// is well formed, and dedents due at the very start of a line are due
/// toward width 0.
pub open spec fn state_ok(st: LexState) -> bool {
    &&& 0 <= st.pos <= st.text.len() <= MAX_SOURCE_LEN
    &&& stack_ok(st.stack)
    &&& (st.pending is Some && column_at(st.text, st.pos) == 0 ==> st.pending == Some(0usize))
}

/// Blanks and indentation hold no line feed: each of their characters moves
/// the column by one.
pub proof fn lemma_run_column(s: Seq<char>, p: int, class: CharClass)
    requires
        0 <= p <= s.len(),
        class == CharClass::Blank || class == CharClass::Indent,
    ensures
        column_at(s, run_end(s, p, class)) == column_at(s, p) + (run_end(s, p, class) - p),
        class == CharClass::Indent && run_end(s, p, class) == p ==> indent_run_width(s, p) == 0,
    decreases s.len() - p,
{
    if p < s.len() && in_class(class, s[p]) {
        lemma_run_column(s, p + 1, class);
        lemma_run_end_bounds(s, p + 1, class);
    }
}

/// A fresh lexer is in a reachable state.
pub proof fn lemma_initial_ok(text: Seq<char>)
    requires
        text.len() <= MAX_SOURCE_LEN,
    ensures
        state_ok(initial(text)),
{
}

/// Each step leads from a reachable state to a reachable state.
pub proof fn lemma_step_keeps_state_ok(st: LexState)
    requires
        state_ok(st),
    ensures
        state_ok(step(st).1),
        step(st).1.text == st.text,
{
    let top = st.stack.last();
    if st.stack.len() == 1 {
        assert(top == 0);
    } else {
        assert(st.stack[0] < top);
    }
    lemma_run_end_bounds(st.text, st.pos, CharClass::Indent);
    lemma_run_column(st.text, st.pos, CharClass::Indent);
    let (r, st1) = indent_phase(st);
    lemma_run_end_bounds(st1.text, st1.pos, CharClass::Blank);
    lemma_lex_at_bounds(st1.text, run_end(st1.text, st1.pos, CharClass::Blank));
    if st.pending is None && column_at(st.text, st.pos) == 0 {
        let w = indent_run_width(st.text, st.pos);
        lemma_indent_run_width_bound(st.text, st.pos);
        if w > top {
            let s2 = st.stack.push(w as usize);
            assert forall|i: int, j: int| 0 <= i < j < s2.len() implies s2[i] < s2[j] by {
                if j == s2.len() - 1 {
                    assert(st.stack[i] <= top);
                }
            }
        }
    }
}

/// The end of input is where lexing rests: once a step yields it, the next
/// step yields the same token again and leaves the lexer as it was.
pub proof fn lemma_end_of_input_repeats(st: LexState)
    requires
        state_ok(st),
        step(st).0 matches Ok(t) && is_eof(t),
    ensures
        step(step(st).1) == step(st),
{
    let top = st.stack.last();
    if st.stack.len() == 1 {
        assert(top == 0);
    } else {
        assert(st.stack[0] < top);
    }
    lemma_run_end_bounds(st.text, st.pos, CharClass::Indent);
    lemma_run_column(st.text, st.pos, CharClass::Indent);
    let (r, st1) = indent_phase(st);
    lemma_run_end_bounds(st1.text, st1.pos, CharClass::Blank);
    lemma_run_column(st1.text, st1.pos, CharClass::Blank);
    let start = run_end(st1.text, st1.pos, CharClass::Blank);
    lemma_lex_at_bounds(st1.text, start);
    assert(start == st.text.len());
    let st2 = step(st).1;
    assert(st2 == (LexState { pos: start, pending: None, ..st1 }));
    if column_at(st.text, start) == 0 {
        lemma_position_bounds(st.text, st1.pos);
        assert(st1.pos == start);
        if st.pending is Some {
            assert(st1.stack == st.stack);
            assert(top == 0);
        } else if column_at(st.text, st.pos) == 0 {
            assert(run_end(st.text, st.pos, CharClass::Indent) == st.pos);
            assert(indent_run_width(st.text, st.pos) == 0);
            assert(top == 0);
        }
        assert(st1.stack.last() == 0);
        lemma_run_column(st2.text, st2.pos, CharClass::Indent);
        assert(indent_run_width(st2.text, st2.pos) == 0);
        assert(indent_phase(st2) == (Ok::<Option<TokenView>, LexError>(None), st2));
    } else {
        assert(indent_phase(st2) == (Ok::<Option<TokenView>, LexError>(None), st2));
    }
    assert(run_end(st2.text, st2.pos, CharClass::Blank) == start);
    assert(scan_phase(st2) == scan_phase(st1));
}

/// In the middle of a line, with no dedents due, a bracket is the next token:
/// an opening bracket is tagged with itself, a closing one with itself, and
/// exactly that character is consumed. The exceptions are the two-character
/// tokens `{|` and a closing bracket followed by `#`.
pub proof fn lemma_step_bracket(st: LexState)
    requires
        state_ok(st),
        st.pending is None,
        column_at(st.text, st.pos) != 0,
        st.pos < st.text.len(),
        is_open_bracket(st.text[st.pos]) || st.text[st.pos] == ')' || st.text[st.pos] == ']'
            || st.text[st.pos] == '}',
        !(st.text[st.pos] == '{' && char_at(st.text, st.pos + 1) == Some('|')),
        !is_open_bracket(st.text[st.pos]) ==> char_at(st.text, st.pos + 1) != Some('#'),
    ensures
        step(st) == (
            Ok::<TokenView, LexError>(
                TokenView {
                    kind: KindView::Plain(
                        if is_open_bracket(st.text[st.pos]) {
                            TokenType::OpenBracket(st.text[st.pos])
                        } else {
                            TokenType::CloseBracket(st.text[st.pos])
                        },
                    ),
                    line: line_at(st.text, st.pos),
                    column: column_at(st.text, st.pos),
                },
            ),
            LexState { pos: st.pos + 1, ..st },
        ),
{
    assert(run_end(st.text, st.pos, CharClass::Blank) == st.pos);
}

/// The state after `k` steps from `st`.
pub open spec fn run_steps(st: LexState, k: nat) -> LexState
    decreases k,
{
    if k == 0 {
        st
    } else {
        run_steps(step(st).1, (k - 1) as nat)
    }
}

/// Whether a step yields a dedent.
pub open spec fn yields_dedent(st: LexState) -> bool {
    step(st).0 matches Ok(t) && t.kind == KindView::Plain(TokenType::Dedent)
}

/// While dedents toward the width of the `i`-th enclosing block are due, the
/// next steps yield one dedent each until that block is innermost again.
pub proof fn lemma_dedents_until_width(st: LexState, i: int)
    requires
        state_ok(st),
        0 <= i < st.stack.len(),
        st.pending == Some(st.stack[i]),
    ensures
        forall|j: nat| j < st.stack.len() - 1 - i ==> #[trigger] yields_dedent(run_steps(st, j)),
        run_steps(st, (st.stack.len() - 1 - i) as nat) == (LexState {
            stack: st.stack.take(i + 1),
            ..st
        }),
    decreases st.stack.len() - i,
{
    let n = st.stack.len() - 1 - i;
    if n == 0 {
        assert(st.stack.take(i + 1) =~= st.stack);
    } else {
        assert(st.stack[i] < st.stack.last());
        let st1 = step(st).1;
        assert(st1 == (LexState { stack: st.stack.drop_last(), ..st }));
        assert(yields_dedent(st));
        lemma_step_keeps_state_ok(st);
        assert(st1.stack[i] == st.stack[i]);
        lemma_dedents_until_width(st1, i);
        assert(st1.stack.take(i + 1) =~= st.stack.take(i + 1));
        assert forall|j: nat| j < n implies #[trigger] yields_dedent(run_steps(st, j)) by {
            if j > 0 {
                assert(run_steps(st, j) == run_steps(st1, (j - 1) as nat));
            }
        }
        assert(run_steps(st, n as nat) == run_steps(st1, (n - 1) as nat));
    }
}

/// Dedenting to an enclosing block: at the start of a line whose width is
/// that of the `i`-th enclosing block, each of the next steps yields one
/// dedent, one per block closed, and the stack is then cut back to that block.
pub proof fn lemma_dedent_to_enclosing(st: LexState, i: int)
    requires
        state_ok(st),
        st.pending is None,
        column_at(st.text, st.pos) == 0,
        0 <= i < st.stack.len() - 1,
        st.stack[i] == indent_run_width(st.text, st.pos),
    ensures
        forall|j: nat| j < st.stack.len() - 1 - i ==> #[trigger] yields_dedent(run_steps(st, j)),
        run_steps(st, (st.stack.len() - 1 - i) as nat) == (LexState {
            pos: run_end(st.text, st.pos, CharClass::Indent),
            stack: st.stack.take(i + 1),
            pending: Some(st.stack[i]),
            ..st
        }),
{
    let n = st.stack.len() - 1 - i;
    assert(st.stack[i] < st.stack.last());
    let st1 = step(st).1;
    assert(yields_dedent(st));
    lemma_step_keeps_state_ok(st);
    assert(st1.stack[i] == st.stack[i]);
    lemma_dedents_until_width(st1, i);
    assert(st1.stack.take(i + 1) =~= st.stack.take(i + 1));
    assert forall|j: nat| j < n implies #[trigger] yields_dedent(run_steps(st, j)) by {
        if j > 0 {
            assert(run_steps(st, j) == run_steps(st1, (j - 1) as nat));
        }
    }
    assert(run_steps(st, n as nat) == run_steps(st1, (n - 1) as nat));
}

/// Decodes the text into its characters.
fn decode(input: &str) -> (r: Vec<char>)
    ensures
        r@ == input@,
{
    let mut out: Vec<char> = Vec::new();
    for c in it: input.chars()
        invariant
            out@ == it.seq().take(it.index() as int),
    {
        out.push(c);
    }
    out
}

/// Turns text into tokens, one at a time.
pub struct Lexer {
    chars: Vec<char>,
    pos: usize,
    line: usize,
    column: usize,
    indentation_stack: Vec<usize>,
    pending: Option<usize>,
}

impl View for Lexer {
    type V = LexState;

    closed spec fn view(&self) -> LexState {
        LexState {
            text: self.chars@,
            pos: self.pos as int,
            stack: self.indentation_stack@,
            pending: self.pending,
        }
    }
}

impl Lexer {
    /// The lexer's invariant: the position lies in the text, the line and
    /// column are those of the position, and the indentation stack is well
    /// formed.
    pub closed spec fn wf(&self) -> bool {
        &&& self.chars@.len() <= MAX_SOURCE_LEN
        &&& self.pos <= self.chars@.len()
        &&& self.line == line_at(self.chars@, self.pos as int)
        &&& self.column == column_at(self.chars@, self.pos as int)
        &&& state_ok(self@)
    }

    /// What a well-formed lexer's model satisfies.
    pub proof fn lemma_wf_view(&self)
        requires
            self.wf(),
        ensures
            0 <= self@.pos <= self@.text.len() <= MAX_SOURCE_LEN,
            stack_ok(self@.stack),
            state_ok(self@),
    {
    }

    pub fn new(input: &str) -> (r: Lexer)
        requires
            input@.len() <= MAX_SOURCE_LEN,
        ensures
            r.wf(),
            r@ == initial(input@),
    {
        let chars = decode(input);
        let mut indentation_stack: Vec<usize> = Vec::new();
        indentation_stack.push(0);
        let r = Lexer { chars, pos: 0, line: 1, column: 0, indentation_stack, pending: None };
        assert(r@.stack =~= seq![0usize]);
        r
    }

    /// The next character, not consumed.
    pub fn peek(&self) -> (r: Option<char>)
        requires
            self.wf(),
        ensures
            r == char_at(self@.text, self@.pos),
    {
        if self.pos < self.chars.len() {
            Some(self.chars[self.pos])
        } else {
            None
        }
    }

    /// The next character, not consumed.
    pub fn peek_next(&self) -> (r: Option<char>)
        requires
            self.wf(),
        ensures
            r == char_at(self@.text, self@.pos),
    {
        self.peek()
    }

    /// The next `amount` characters, not consumed; `None` when fewer remain.
    pub fn peek_by(&self, amount: usize) -> (r: Option<String>)
        requires
            self.wf(),
        ensures
            self@.pos + amount <= self@.text.len() ==> r is Some && r->0@ == self@.text.subrange(
                self@.pos,
                self@.pos + amount,
            ),
            self@.pos + amount > self@.text.len() ==> r is None,
    {
        if amount <= self.chars.len() - self.pos {
            Some(text_of(&self.chars, self.pos, self.pos + amount))
        } else {
            None
        }
    }

    /// Consumes the next character, if there is one. The cursor methods move
    /// the position only while no dedents are due, that is between calls of
    /// `next_token` that have finished resynchronising the indentation.
    pub fn advance(&mut self) -> (r: Option<char>)
        requires
            old(self).wf(),
            old(self)@.pending is None,
        ensures
            final(self).wf(),
            r == char_at(old(self)@.text, old(self)@.pos),
            final(self)@ == (LexState {
                pos: if r is Some { old(self)@.pos + 1 } else { old(self)@.pos },
                ..old(self)@
            }),
    {
        if self.pos >= self.chars.len() {
            return None;
        }
        let c = self.chars[self.pos];
        proof {
            lemma_position_bounds(self.chars@, self.pos as int);
        }
        if c == '\n' {
            self.line = self.line + 1;
            self.column = 0;
        } else {
            self.column = self.column + 1;
        }
        self.pos = self.pos + 1;
        Some(c)
    }

    /// Consumes the next `amount` characters, or all that remain.
    pub fn advance_by(&mut self, amount: usize)
        requires
            old(self).wf(),
            old(self)@.pending is None,
        ensures
            final(self).wf(),
            final(self)@ == (LexState {
                pos: if old(self)@.pos + amount <= old(self)@.text.len() {
                    old(self)@.pos + amount
                } else {
                    old(self)@.text.len() as int
                },
                ..old(self)@
            }),
    {
        let ghost start = self@;
        let mut i: usize = 0;
        while i < amount && self.pos < self.chars.len()
            invariant
                self.wf(),
                i <= amount,
                start.pending is None,
                self@ == (LexState { pos: start.pos + i, ..start }),
            decreases amount - i,
        {
            self.advance();
            i = i + 1;
        }
    }

    /// Consumes characters up to `target`.
    fn advance_to(&mut self, target: usize)
        requires
            old(self).wf(),
            old(self)@.pending is None,
            old(self)@.pos <= target <= old(self)@.text.len(),
        ensures
            final(self).wf(),
            final(self)@ == (LexState { pos: target as int, ..old(self)@ }),
    {
        self.advance_by(target - self.pos);
    }

    /// Consumes the spaces and tabs at the cursor and returns their
    /// indentation width: one column for a space, `TAB_WIDTH` for a tab.
    pub fn skip_whitespace(&mut self) -> (r: usize)
        requires
            old(self).wf(),
            old(self)@.pending is None,
        ensures
            final(self).wf(),
            final(self)@ == (LexState {
                pos: run_end(old(self)@.text, old(self)@.pos, CharClass::Indent),
                ..old(self)@
            }),
            r == indent_run_width(old(self)@.text, old(self)@.pos),
    {
        let ghost start = self@;
        let mut width: usize = 0;
        proof {
            lemma_indent_run_width_bound(start.text, start.pos);
        }
        while self.pos < self.chars.len() && class_contains(CharClass::Indent, self.chars[self.pos])
            invariant
                self.wf(),
                start.pos <= self@.pos <= start.text.len(),
                start.pending is None,
                self@ == (LexState { pos: self@.pos, ..start }),
                run_end(start.text, start.pos, CharClass::Indent) == run_end(
                    start.text,
                    self@.pos,
                    CharClass::Indent,
                ),
                width + indent_run_width(start.text, self@.pos) == indent_run_width(
                    start.text,
                    start.pos,
                ),
                indent_run_width(start.text, start.pos) <= TAB_WIDTH * (start.text.len()
                    - start.pos),
            decreases self.chars@.len() - self.pos,
        {
            let c = self.chars[self.pos];
            if c == '\t' {
                width = width + TAB_WIDTH;
            } else {
                width = width + 1;
            }
            self.advance();
        }
        width
    }

    /// Consumes the whitespace at the cursor up to the next line feed or
    /// other character.
    fn skip_blanks(&mut self)
        requires
            old(self).wf(),
            old(self)@.pending is None,
        ensures
            final(self).wf(),
            final(self)@ == (LexState {
                pos: run_end(old(self)@.text, old(self)@.pos, CharClass::Blank),
                ..old(self)@
            }),
    {
        let e = find_run_end(&self.chars, self.pos, CharClass::Blank);
        proof {
            lemma_run_end_bounds(self.chars@, self.pos as int, CharClass::Blank);
        }
        self.advance_to(e);
    }

    /// Consumes characters up to, not including, the first one on which
    /// `predicate` holds, or to the end of the text.
    pub fn advance_up_to<F: Fn(char) -> bool>(&mut self, predicate: F)
        requires
            old(self).wf(),
            old(self)@.pending is None,
            forall|c: char| predicate.requires((c,)),
        ensures
            final(self).wf(),
            final(self)@ == (LexState { pos: final(self)@.pos, ..old(self)@ }),
            old(self)@.pos <= final(self)@.pos <= old(self)@.text.len(),
            forall|k: int|
                old(self)@.pos <= k < final(self)@.pos ==> predicate.ensures(
                    (#[trigger] old(self)@.text[k],),
                    false,
                ),
            final(self)@.pos < old(self)@.text.len() ==> predicate.ensures(
                (old(self)@.text[final(self)@.pos],),
                true,
            ),
    {
        let ghost start = self@;
        loop
            invariant
                self.wf(),
                start.pending is None,
                forall|c: char| predicate.requires((c,)),
                start.pos <= self@.pos <= start.text.len(),
                self@ == (LexState { pos: self@.pos, ..start }),
                forall|k: int|
                    start.pos <= k < self@.pos ==> predicate.ensures(
                        (#[trigger] start.text[k],),
                        false,
                    ),
            ensures
                self.wf(),
                start.pos <= self@.pos <= start.text.len(),
                self@ == (LexState { pos: self@.pos, ..start }),
                forall|k: int|
                    start.pos <= k < self@.pos ==> predicate.ensures(
                        (#[trigger] start.text[k],),
                        false,
                    ),
                self@.pos < start.text.len() ==> predicate.ensures(
                    (start.text[self@.pos],),
                    true,
                ),
            decreases self.chars@.len() - self.pos,
        {
            if self.pos >= self.chars.len() {
                break;
            }
            let c = self.chars[self.pos];
            if predicate(c) {
                break;
            }
            self.advance();
        }
    }

    /// Consumes a string literal whose opening quote is at the cursor and
    /// returns its contents; `None` when the text ends before the closing
    /// quote, all of it then consumed.
    pub fn handle_string(&mut self) -> (r: Option<String>)
        requires
            old(self).wf(),
            old(self)@.pending is None,
            char_at(old(self)@.text, old(self)@.pos) == Some('"'),
        ensures
            final(self).wf(),
            match string_body(old(self)@.text, old(self)@.pos + 1) {
                Some((t, e)) => r is Some && r->0@ == t && final(self)@ == (LexState {
                    pos: e,
                    ..old(self)@
                }),
                None => r is None && final(self)@ == (LexState {
                    pos: old(self)@.text.len() as int,
                    ..old(self)@
                }),
            },
    {
        let (k, e) = scan_string(&self.chars, self.pos);
        self.advance_to(e);
        match k {
            TokenType::String(s) => Some(s),
            _ => None,
        }
    }

    /// Consumes a number at the cursor: an integer, a float, or an error when
    /// the integer does not fit in an `i64`.
    pub fn handle_number(&mut self) -> (r: TokenType)
        requires
            old(self).wf(),
            old(self)@.pending is None,
            char_at(old(self)@.text, old(self)@.pos) matches Some(c) && '0' <= c <= '9',
        ensures
            final(self).wf(),
            (r@, final(self)@.pos) == lex_number(old(self)@.text, old(self)@.pos),
            final(self)@ == (LexState { pos: final(self)@.pos, ..old(self)@ }),
    {
        let (k, e) = scan_number(&self.chars, self.pos);
        self.advance_to(e);
        k
    }

    /// Consumes the run of `class` at the cursor and returns it.
    fn take_run(&mut self, class: CharClass) -> (r: String)
        requires
            old(self).wf(),
            old(self)@.pending is None,
        ensures
            final(self).wf(),
            final(self)@ == (LexState {
                pos: run_end(old(self)@.text, old(self)@.pos, class),
                ..old(self)@
            }),
            r@ == old(self)@.text.subrange(old(self)@.pos, final(self)@.pos),
    {
        let start = self.pos;
        let e = find_run_end(&self.chars, start, class);
        proof {
            lemma_run_end_bounds(self.chars@, start as int, class);
        }
        let w = text_of(&self.chars, start, e);
        self.advance_to(e);
        w
    }

    /// Consumes the word (letters, digits, underscores, in any script) at the
    /// cursor and returns it.
    pub fn handle_identifier(&mut self) -> (r: String)
        requires
            old(self).wf(),
            old(self)@.pending is None,
        ensures
            final(self).wf(),
            final(self)@ == (LexState {
                pos: run_end(old(self)@.text, old(self)@.pos, CharClass::Word),
                ..old(self)@
            }),
            r@ == old(self)@.text.subrange(old(self)@.pos, final(self)@.pos),
    {
        self.take_run(CharClass::Word)
    }

    /// Consumes the ASCII letters, digits and underscores at the cursor;
    /// returns them with the column where they start when they form a value
    /// identifier.
    pub fn parse_identifier(&mut self) -> (r: Option<(String, usize)>)
        requires
            old(self).wf(),
            old(self)@.pending is None,
        ensures
            final(self).wf(),
            final(self)@ == (LexState {
                pos: run_end(old(self)@.text, old(self)@.pos, CharClass::Ident),
                ..old(self)@
            }),
            r is Some == valid_value_ident(
                old(self)@.text.subrange(old(self)@.pos, final(self)@.pos),
            ),
            r matches Some((w, col)) ==> w@ == old(self)@.text.subrange(
                old(self)@.pos,
                final(self)@.pos,
            ) && col == column_at(old(self)@.text, old(self)@.pos),
    {
        let start = self.pos;
        let column = self.column;
        let w = self.take_run(CharClass::Ident);
        proof {
            lemma_run_end_bounds(self.chars@, start as int, CharClass::Ident);
        }
        if is_value_ident(&self.chars, start, self.pos) {
            Some((w, column))
        } else {
            None
        }
    }

    /// Consumes a type identifier (an uppercase letter, then letters, digits
    /// and underscores) at the cursor; consumes nothing when no uppercase
    /// letter stands there.
    pub fn parse_type_identifier(&mut self) -> (r: Option<String>)
        requires
            old(self).wf(),
            old(self)@.pending is None,
        ensures
            final(self).wf(),
            (char_at(old(self)@.text, old(self)@.pos) matches Some(c) && is_upper(c)) ==> {
                let e = run_end(old(self)@.text, old(self)@.pos + 1, CharClass::Word);
                r is Some && r->0@ == old(self)@.text.subrange(old(self)@.pos, e)
                    && final(self)@ == (LexState { pos: e, ..old(self)@ })
            },
            !(char_at(old(self)@.text, old(self)@.pos) matches Some(c) && is_upper(c)) ==> r is None
                && final(self)@ == old(self)@,
    {
        if self.pos < self.chars.len() && 'A' <= self.chars[self.pos] && self.chars[self.pos] <= 'Z' {
            let start = self.pos;
            let e = find_run_end(&self.chars, start + 1, CharClass::Word);
            proof {
                lemma_run_end_bounds(self.chars@, start + 1, CharClass::Word);
            }
            let name = text_of(&self.chars, start, e);
            self.advance_to(e);
            Some(name)
        } else {
            None
        }
    }

    /// Whether dedents toward the current line's width are still due; the
    /// cursor methods move the position only when none are.
    pub fn dedents_due(&self) -> (r: bool)
        ensures
            r == (self@.pending is Some),
    {
        self.pending.is_some()
    }

    /// The indentation widths of the enclosing blocks, innermost last.
    pub fn indentation(&self) -> (r: &Vec<usize>)
        ensures
            r@ == self@.stack,
    {
        &self.indentation_stack
    }

    /// A token that reports `message` at the given position.
    pub fn error_token(&self, message: &str, line: usize, column: usize) -> (r: Token)
        ensures
            r@ == (TokenView { kind: KindView::Error(message@), line: line as int, column: column as int }),
    {
        Token { token_type: TokenType::Error(message.to_string()), line, column }
    }

    /// Indentation handling, at the start of a line or while dedents are
    /// due: returns the indent or dedent to emit, nothing when scanning goes
    /// on, or the failure of a dedent that lands on no enclosing width.
    pub fn handle_indentation(&mut self) -> (r: Result<Option<Token>, LexError>)
        requires
            old(self).wf(),
        ensures
            final(self).wf(),
            indent_phase(old(self)@) == (
                match r {
                    Ok(Some(t)) => Ok(Some(t@)),
                    Ok(None) => Ok(None),
                    Err(e) => Err(e),
                },
                final(self)@,
            ),
    {
        let ghost st = self@;
        let top = self.indentation_stack[self.indentation_stack.len() - 1];
        match self.pending {
            Some(w) => {
                if top > w {
                    self.indentation_stack.pop();
                    proof {
                        assert(self.indentation_stack@ =~= st.stack.drop_last());
                    }
                    Ok(Some(Token { token_type: TokenType::Dedent, line: self.line, column: 0 }))
                } else if top < w {
                    Err(LexError::MismatchedIndentation { line: self.line })
                } else {
                    self.pending = None;
                    Ok(None)
                }
            },
            None => {
                if self.column != 0 {
                    return Ok(None);
                }
                let line = self.line;
                let w = self.skip_whitespace();
                proof {
                    lemma_run_column(st.text, st.pos, CharClass::Indent);
                }
                if w > top {
                    self.indentation_stack.push(w);
                    proof {
                        assert forall|i: int, j: int|
                            0 <= i < j < self.indentation_stack@.len() implies self.indentation_stack@[i]
                            < self.indentation_stack@[j] by {
                            if j == self.indentation_stack@.len() - 1 {
                                assert(st.stack[i] <= st.stack.last());
                            }
                        }
                    }
                    Ok(Some(Token { token_type: TokenType::Indent, line, column: 0 }))
                } else if w < top {
                    self.indentation_stack.pop();
                    self.pending = Some(w);
                    proof {
                        assert(self.indentation_stack@ =~= st.stack.drop_last());
                    }
                    Ok(Some(Token { token_type: TokenType::Dedent, line, column: 0 }))
                } else {
                    Ok(None)
                }
            },
        }
    }

    /// The next token. At the end of the text this is `EOF`, again on every
    /// later call. Fails when a dedent lands on no enclosing indentation
    /// width, and then keeps failing.
    pub fn next_token(&mut self) -> (r: Result<Token, LexError>)
        requires
            old(self).wf(),
        ensures
            final(self).wf(),
            (token_result_view(r), final(self)@) == step(old(self)@),
            r is Ok && !is_eof(r->Ok_0@) ==> old(self)@.pos < final(self)@.pos || (old(self)@.pos
                == final(self)@.pos && final(self)@.stack.len() < old(self)@.stack.len()),
            r is Ok && is_eof(r->Ok_0@) ==> final(self)@.pos == final(self)@.text.len(),
            r is Ok && is_eof(r->Ok_0@) ==> step(final(self)@) == (
                token_result_view(r),
                final(self)@,
            ),
    {
        let ghost st = self@;
        proof {
            self.lemma_wf_view();
            lemma_run_end_bounds(st.text, st.pos, CharClass::Indent);
        }
        match self.handle_indentation() {
            Err(e) => {
                return Err(e);
            },
            Ok(Some(t)) => {
                proof {
                    if st.pending is None && column_at(st.text, st.pos) == 0 && indent_run_width(
                        st.text,
                        st.pos,
                    ) > st.stack.last() {
                        reveal_with_fuel(run_end, 2);
                        reveal_with_fuel(indent_run_width, 2);
                    }
                }
                return Ok(t);
            },
            Ok(None) => {},
        }
        let ghost st1 = self@;
        proof {
            lemma_run_end_bounds(st1.text, st1.pos, CharClass::Blank);
        }
        self.skip_blanks();
        let line = self.line;
        let column = self.column;
        let (kind, end) = scan_token(&self.chars, self.pos);
        self.advance_to(end);
        let r = Ok(Token { token_type: kind, line, column });
        proof {
            if is_eof(r->Ok_0@) {
                lemma_end_of_input_repeats(st);
            }
        }
        r
    }

    /// Drains the lexer: every token up to and including the one `EOF`, or
    /// the failure that stopped it. Either way the result is the run of
    /// `next_token` calls from the current state.
    pub fn tokenize(&mut self) -> (r: Result<Vec<Token>, LexError>)
        requires
            old(self).wf(),
        ensures
            final(self).wf(),
            match r {
                Ok(v) => {
                    &&& v@.len() > 0
                    &&& is_eof(v@.last()@)
                    &&& forall|i: int| 0 <= i < v@.len() - 1 ==> !is_eof(#[trigger] v@[i]@)
                    &&& exists|states: Seq<LexState>|
                        is_run(states, tokens_view(v@)) && states[0] == old(self)@ && states.last()
                            == final(self)@
                },
                Err(e) => exists|states: Seq<LexState>, toks: Seq<TokenView>|
                    {
                        &&& is_run(states, toks)
                        &&& states[0] == old(self)@
                        &&& states.last() == final(self)@
                        &&& step(final(self)@) == (Err::<TokenView, LexError>(e), final(self)@)
                        &&& forall|i: int| 0 <= i < toks.len() ==> !is_eof(#[trigger] toks[i])
                    },
            },
    {
        let ghost init = self@;
        let mut tokens: Vec<Token> = Vec::new();
        let ghost mut states: Seq<LexState> = seq![init];
        loop
            invariant
                self.wf(),
                self@.text == init.text,
                is_run(states, tokens_view(tokens@)),
                states[0] == init,
                init == old(self)@,
                states.last() == self@,
                forall|i: int| 0 <= i < tokens@.len() ==> !is_eof(#[trigger] tokens@[i]@),
            decreases self@.text.len() - self@.pos, self@.stack.len(),
        {
            proof {
                self.lemma_wf_view();
            }
            let ghost before = self@;
            let ghost toks_before = tokens_view(tokens@);
            match self.next_token() {
                Err(e) => {
                    proof {
                        assert(forall|i: int| 0 <= i < toks_before.len() ==> toks_before[i] == #[trigger] tokens@[i]@);
                        assert(self@ == before);
                        assert(is_run(states, toks_before));
                        assert(step(self@) == (Err::<TokenView, LexError>(e), self@));
                        assert(forall|i: int| 0 <= i < toks_before.len() ==> !is_eof(#[trigger] toks_before[i]));
                        assert(states.last() == self@);
                        assert(states[0] == init);
                    }
                    return Err(e);
                },
                Ok(t) => {
                    let eof = match &t.token_type {
                        TokenType::EOF => true,
                        _ => false,
                    };
                    let ghost tv = t@;
                    tokens.push(t);
                    proof {
                        let toks = tokens_view(tokens@);
                        assert(toks =~= toks_before.push(tv));
                        let old_states = states;
                        states = states.push(self@);
                        assert forall|i: int| 0 <= i < toks.len() implies #[trigger] step(states[i]) == (
                        Ok::<TokenView, LexError>(toks[i]), states[i + 1]) by {
                            if i < toks.len() - 1 {
                                assert(states[i] == old_states[i]);
                                assert(states[i + 1] == old_states[i + 1]);
                            }
                        }
                    }
                    if eof {
                        proof {
                            assert(is_run(states, tokens_view(tokens@)));
                            assert(tokens@.last()@ == tv);
                            assert(states[0] == init);
                            assert(states.last() == self@);
                        }
                        return Ok(tokens);
                    }
                    proof {
                        self.lemma_wf_view();
                    }
                },
            }
        }
    }
}

} // verus!
