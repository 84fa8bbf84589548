//! The grammar of the source text and the parser that reads it.
//!
//! The grammar is an ordered one: of several alternatives the first that
//! matches is taken, and a repetition takes as much as it can. Every parsing
//! function of the grammar maps the text in front of it to what it read and
//! to the number of characters it consumed.
use crate::ast::{Expr, ExprView, Operator, Stmt, StmtView};
use crate::error::ParseError;
use vstd::prelude::*;

verus! {

/// The text that is left when the first `n` characters are consumed.
pub open spec fn rest(s: Seq<char>, n: nat) -> Seq<char> {
    if n <= s.len() {
        s.skip(n as int)
    } else {
        Seq::empty()
    }
}

/// Whether the text starts with `word`.
pub open spec fn starts_with(s: Seq<char>, word: Seq<char>) -> bool {
    word.len() <= s.len() && s.take(word.len() as int) == word
}

/// Whether the text starts with the character `c`.
pub open spec fn begins(s: Seq<char>, c: char) -> bool {
    s.len() >= 1 && s[0] == c
}

/// The length of one blank at the start of the text, `0` where there is
/// none: a tab, a space, or a backslash before a line break.
pub open spec fn blank(s: Seq<char>) -> nat {
    if s.len() >= 1 && (s[0] == '\t' || s[0] == ' ') {
        1
    } else if s.len() >= 2 && s[0] == '\\' && (s[1] == '\n' || s[1] == '\r') {
        2
    } else {
        0
    }
}

/// The length of the blanks that the text starts with.
pub open spec fn blanks(s: Seq<char>) -> nat
    decreases s.len(),
{
    let b = blank(s);
    if b == 0 {
        0
    } else {
        b + blanks(rest(s, b))
    }
}

/// The length of the blanks that the text starts with, which must be there.
pub open spec fn spaces(s: Seq<char>) -> Option<nat> {
    if blanks(s) > 0 {
        Some(blanks(s))
    } else {
        None
    }
}

/// The length of the line ends that the text starts with, each with the
/// blanks before it. Blanks that no line break follows are left.
pub open spec fn lines(s: Seq<char>) -> nat
    decreases s.len(),
{
    let b = blanks(s);
    if begins(rest(s, b), '\n') || begins(rest(s, b), '\r') {
        b + 1 + lines(rest(s, b + 1))
    } else {
        0
    }
}

/// Whether `c` can stand in a name.
pub open spec fn is_letter(c: char) -> bool {
    ('a' <= c && c <= 'z') || c == '_'
}

/// Whether `c` is a decimal digit.
pub open spec fn is_digit(c: char) -> bool {
    '0' <= c && c <= '9'
}

/// The length of the name that the text starts with. A name may be empty.
pub open spec fn word(s: Seq<char>) -> nat
    decreases s.len(),
{
    if s.len() >= 1 && is_letter(s[0]) {
        1 + word(rest(s, 1))
    } else {
        0
    }
}

/// The number of digits that the text starts with.
pub open spec fn digits(s: Seq<char>) -> nat
    decreases s.len(),
{
    if s.len() >= 1 && is_digit(s[0]) {
        1 + digits(rest(s, 1))
    } else {
        0
    }
}

/// The number that a sequence of digits denotes.
pub open spec fn decimal(d: Seq<char>) -> nat
    decreases d.len(),
{
    if d.len() == 0 {
        0
    } else {
        decimal(d.drop_last()) * 10 + (d.last() as nat - '0' as nat) as nat
    }
}

/// One or more digits that denote a number within `i32`.
pub open spec fn unsigned(s: Seq<char>) -> Option<(i32, nat)> {
    let n = digits(s);
    if n > 0 && decimal(s.take(n as int)) <= i32::MAX {
        Some((decimal(s.take(n as int)) as i32, n))
    } else {
        None
    }
}

/// A literal: `-`, blanks and digits, or an optional `+`, blanks and digits.
pub open spec fn number(s: Seq<char>) -> Option<(i32, nat)> {
    let negative = if begins(s, '-') {
        let b = blanks(rest(s, 1));
        match unsigned(rest(s, 1 + b)) {
            Some((n, k)) => Some(((-n) as i32, 1 + b + k)),
            None => None,
        }
    } else {
        None
    };
    match negative {
        Some(r) => Some(r),
        None => {
            let sign: nat = if begins(s, '+') {
                1
            } else {
                0
            };
            let b = blanks(rest(s, sign));
            match unsigned(rest(s, sign + b)) {
                Some((n, k)) => Some((n, sign + b + k)),
                None => None,
            }
        },
    }
}

/// The operator of a precedence level that the text starts with, and its
/// length. The levels, loosest first: equality, comparison, sum, product.
pub open spec fn operator_at(level: nat, s: Seq<char>) -> Option<(Operator, nat)> {
    if level == 0 {
        if starts_with(s, seq!['=', '=']) {
            Some((Operator::Eq, 2))
        } else if starts_with(s, seq!['!', '=']) {
            Some((Operator::Neq, 2))
        } else {
            None
        }
    } else if level == 1 {
        if starts_with(s, seq!['=', '>']) {
            Some((Operator::Ge, 2))
        } else if starts_with(s, seq!['=', '<']) {
            Some((Operator::Le, 2))
        } else if starts_with(s, seq!['>', '=']) {
            Some((Operator::Ge, 2))
        } else if starts_with(s, seq!['<', '=']) {
            Some((Operator::Le, 2))
        } else if begins(s, '>') {
            Some((Operator::Gt, 1))
        } else if begins(s, '<') {
            Some((Operator::Lt, 1))
        } else {
            None
        }
    } else if level == 2 {
        if begins(s, '+') {
            Some((Operator::Add, 1))
        } else if begins(s, '-') {
            Some((Operator::Sub, 1))
        } else {
            None
        }
    } else if level == 3 {
        if begins(s, '*') {
            Some((Operator::Mul, 1))
        } else if begins(s, '/') {
            Some((Operator::Div, 1))
        } else if begins(s, '%') {
            Some((Operator::Rem, 1))
        } else {
            None
        }
    } else {
        None
    }
}

/// An expression of a precedence level: an operand of the next level, then
/// any number of operators of this level, each with its operand. Level `4`
/// is an atom.
#[verifier::opaque]
pub open spec fn tier(level: nat, s: Seq<char>) -> (ExprView, nat)
    decreases s.len(),
        (if level >= 4 {
            6
        } else {
            20 - 2 * level
        }),
{
    if level >= 4 {
        atom(s)
    } else {
        let (lhs, n) = tier(level + 1, s);
        let (e, m) = tail(level, rest(s, n), lhs);
        (e, n + m)
    }
}

/// What follows the first operand of a level: operators and operands, taken
/// into `lhs` from left to right.
#[verifier::opaque]
pub open spec fn tail(level: nat, s: Seq<char>, lhs: ExprView) -> (ExprView, nat)
    decreases s.len(),
        (if level >= 4 {
            6
        } else {
            19 - 2 * level
        }),
{
    if level >= 4 {
        (lhs, 0)
    } else {
        let b = blanks(s);
        match operator_at(level, rest(s, b)) {
            None => (lhs, 0),
            Some((op, k)) => {
                let start = b + k + blanks(rest(s, b + k));
                let (rhs, n) = tier(level + 1, rest(s, start));
                let (e, m) = tail(
                    level,
                    rest(s, start + n),
                    ExprView::Operation(op, Box::new(lhs), Box::new(rhs)),
                );
                (e, start + n + m)
            },
        }
    }
}

/// An atom: the first that matches of a literal, an expression in
/// parentheses, a call, a conditional, and a name. The name may be empty, so
/// an atom is always there.
#[verifier::opaque]
pub open spec fn atom(s: Seq<char>) -> (ExprView, nat)
    decreases s.len(), 5nat,
{
    match number(s) {
        Some((v, n)) => (ExprView::Value(v), n),
        None => match group(s) {
            Some(r) => r,
            None => match call(s) {
                Some(r) => r,
                None => match conditional(s) {
                    Some(r) => r,
                    None => (ExprView::Variable(s.take(word(s) as int)), word(s)),
                },
            },
        },
    }
}

/// `(`, blanks, an expression, blanks, `)`.
#[verifier::opaque]
pub open spec fn group(s: Seq<char>) -> Option<(ExprView, nat)>
    decreases s.len(), 4nat,
{
    if begins(s, '(') {
        let start = 1 + blanks(rest(s, 1));
        let (e, n) = tier(0, rest(s, start));
        let end = start + n + blanks(rest(s, start + n));
        if begins(rest(s, end), ')') {
            Some((e, end + 1))
        } else {
            None
        }
    } else {
        None
    }
}

/// The end of a list: an optional comma, blanks, `)`.
pub open spec fn list_end(s: Seq<char>) -> Option<nat> {
    let comma: nat = if begins(s, ',') {
        1
    } else {
        0
    };
    let end = comma + blanks(rest(s, comma));
    if begins(rest(s, end), ')') {
        Some(end + 1)
    } else {
        None
    }
}

/// A name, blanks, `(`, arguments separated by commas, the end of the list.
#[verifier::opaque]
pub open spec fn call(s: Seq<char>) -> Option<(ExprView, nat)>
    decreases s.len(), 4nat,
{
    let w = word(s);
    let open = w + blanks(rest(s, w));
    if begins(rest(s, open), '(') {
        let (args, n) = arguments(rest(s, open + 1));
        match list_end(rest(s, open + 1 + n)) {
            Some(k) => Some((ExprView::FuncCall(s.take(w as int), args), open + 1 + n + k)),
            None => None,
        }
    } else {
        None
    }
}

/// One argument with the blanks around it.
#[verifier::opaque]
pub open spec fn argument(s: Seq<char>) -> (ExprView, nat)
    decreases s.len(), 30nat,
{
    let b = blanks(s);
    let (e, n) = tier(0, rest(s, b));
    (e, b + n + blanks(rest(s, b + n)))
}

/// One argument, then as many as commas introduce.
#[verifier::opaque]
pub open spec fn arguments(s: Seq<char>) -> (Seq<ExprView>, nat)
    decreases s.len(), 32nat,
{
    let (first, n) = argument(s);
    let (all, m) = more_arguments(rest(s, n), seq![first]);
    (all, n + m)
}

/// The arguments that commas introduce, after `done`.
#[verifier::opaque]
pub open spec fn more_arguments(s: Seq<char>, done: Seq<ExprView>) -> (Seq<ExprView>, nat)
    decreases s.len(), 31nat,
{
    if begins(s, ',') {
        let (e, n) = argument(rest(s, 1));
        let (all, m) = more_arguments(rest(s, 1 + n), done.push(e));
        (all, 1 + n + m)
    } else {
        (done, 0)
    }
}

/// Blanks, a word, blanks, an expression: a branch of a conditional.
#[verifier::opaque]
pub open spec fn clause(s: Seq<char>, word: Seq<char>) -> Option<(ExprView, nat)>
    decreases s.len(), 3nat,
{
    match spaces(s) {
        None => None,
        Some(b) => if !starts_with(rest(s, b), word) {
            None
        } else {
            match spaces(rest(s, b + word.len())) {
                None => None,
                Some(sp) => {
                    let start = b + word.len() + sp;
                    let (e, n) = tier(0, rest(s, start));
                    Some((e, start + n))
                },
            }
        },
    }
}

/// `if`, blanks, a condition, a `then` branch, an `else` branch.
#[verifier::opaque]
pub open spec fn conditional(s: Seq<char>) -> Option<(ExprView, nat)>
    decreases s.len(), 4nat,
{
    if !starts_with(s, seq!['i', 'f']) {
        None
    } else {
        match spaces(rest(s, 2)) {
            None => None,
            Some(b) => {
                let (c, n) = tier(0, rest(s, 2 + b));
                let p = 2 + b + n;
                match clause(rest(s, p), seq!['t', 'h', 'e', 'n']) {
                    None => None,
                    Some((t, n1)) => match clause(rest(s, p + n1), seq!['e', 'l', 's', 'e']) {
                        None => None,
                        Some((f, n2)) => Some(
                            (ExprView::If(Box::new(c), Box::new(t), Box::new(f)), p + n1 + n2),
                        ),
                    },
                }
            },
        }
    }
}

/// An expression.
pub open spec fn expression(s: Seq<char>) -> (ExprView, nat) {
    tier(0, s)
}

/// An expression and the line ends after it.
pub open spec fn closing(s: Seq<char>) -> (ExprView, nat) {
    let (e, n) = expression(s);
    (e, n + lines(rest(s, n)))
}

/// Blanks, `=`, blanks, an expression, line ends.
pub open spec fn assigned(s: Seq<char>) -> Option<(ExprView, nat)> {
    let b = blanks(s);
    if !begins(rest(s, b), '=') {
        None
    } else {
        let start = b + 1 + blanks(rest(s, b + 1));
        let (e, n) = closing(rest(s, start));
        Some((e, start + n))
    }
}

/// Blanks, the word that starts a statement, blanks that must be there.
pub open spec fn keyword(s: Seq<char>, word: Seq<char>) -> Option<nat> {
    let b = blanks(s);
    if !starts_with(rest(s, b), word) {
        None
    } else {
        match spaces(rest(s, b + word.len())) {
            None => None,
            Some(sp) => Some(b + word.len() + sp),
        }
    }
}

/// `print`, an expression, line ends.
pub open spec fn print(s: Seq<char>) -> Option<(StmtView, nat)> {
    match keyword(s, seq!['p', 'r', 'i', 'n', 't']) {
        None => None,
        Some(k) => {
            let (e, n) = closing(rest(s, k));
            Some((StmtView::Print(e), k + n))
        },
    }
}

/// `let`, a name, `=`, an expression, line ends.
pub open spec fn binding(s: Seq<char>) -> Option<(StmtView, nat)> {
    match keyword(s, seq!['l', 'e', 't']) {
        None => None,
        Some(k) => {
            let w = word(rest(s, k));
            match assigned(rest(s, k + w)) {
                None => None,
                Some((e, n)) => Some((StmtView::Binding(rest(s, k).take(w as int), e), k + w + n)),
            }
        },
    }
}

/// One parameter with the blanks around it.
pub open spec fn parameter(s: Seq<char>) -> (Seq<char>, nat) {
    let b = blanks(s);
    let w = word(rest(s, b));
    (rest(s, b).take(w as int), b + w + blanks(rest(s, b + w)))
}

/// The parameters that commas introduce, after `done`.
pub open spec fn more_parameters(s: Seq<char>, done: Seq<Seq<char>>) -> (Seq<Seq<char>>, nat)
    decreases s.len(),
{
    if begins(s, ',') {
        let (name, n) = parameter(rest(s, 1));
        let (all, m) = more_parameters(rest(s, 1 + n), done.push(name));
        (all, 1 + n + m)
    } else {
        (done, 0)
    }
}

/// One parameter, then as many as commas introduce.
pub open spec fn parameters(s: Seq<char>) -> (Seq<Seq<char>>, nat) {
    let (first, n) = parameter(s);
    let (all, m) = more_parameters(rest(s, n), seq![first]);
    (all, n + m)
}

/// The head of a definition: `def`, a name, `(`, parameters, the end of the
/// list. It gives the name, the parameters and the length.
pub open spec fn header(s: Seq<char>) -> Option<(Seq<char>, Seq<Seq<char>>, nat)> {
    match keyword(s, seq!['d', 'e', 'f']) {
        None => None,
        Some(k) => {
            let w = word(rest(s, k));
            let open = k + w + blanks(rest(s, k + w));
            if !begins(rest(s, open), '(') {
                None
            } else {
                let (params, n) = parameters(rest(s, open + 1));
                match list_end(rest(s, open + 1 + n)) {
                    None => None,
                    Some(c) => Some((rest(s, k).take(w as int), params, open + 1 + n + c)),
                }
            }
        },
    }
}

/// The head of a definition, `=`, an expression, line ends.
pub open spec fn define(s: Seq<char>) -> Option<(StmtView, nat)> {
    match header(s) {
        None => None,
        Some((name, params, k)) => match assigned(rest(s, k)) {
            None => None,
            Some((e, m)) => Some((StmtView::Define(name, params, e), k + m)),
        },
    }
}

/// A statement: the first that matches of a `print`, a `let` and a `def`.
pub open spec fn statement(s: Seq<char>) -> Option<(StmtView, nat)> {
    match print(s) {
        Some(r) => Some(r),
        None => match binding(s) {
            Some(r) => Some(r),
            None => define(s),
        },
    }
}

/// As many statements as the text starts with, after `done`.
pub open spec fn statements(s: Seq<char>, done: Seq<StmtView>) -> (Seq<StmtView>, nat)
    decreases s.len(),
{
    match statement(s) {
        None => (done, 0),
        Some((stmt, n)) => {
            let (all, m) = statements(rest(s, n), done.push(stmt));
            (all, n + m)
        },
    }
}

/// The statements of a source text, which must be all there is in it.
pub open spec fn program(s: Seq<char>) -> Result<Seq<StmtView>, ParseError> {
    let (stmts, n) = statements(s, Seq::empty());
    if n == s.len() {
        Ok(stmts)
    } else {
        Err(ParseError { offset: n as usize })
    }
}

/// A source text with its characters laid out for indexing.
struct Source<'a> {
    text: &'a str,
    chars: Vec<char>,
}

impl<'a> Source<'a> {
    spec fn wf(&self) -> bool {
        self.chars@ == self.text@
    }

    /// The text from the offset `pos` on.
    spec fn from(&self, pos: usize) -> Seq<char> {
        rest(self.chars@, pos as nat)
    }

    fn new(text: &'a str) -> (src: Self)
        ensures
            src.wf(),
            src.text@ == text@,
    {
        let mut chars: Vec<char> = Vec::new();
        for c in it: text.chars()
            invariant
                it.seq() == text@,
                chars@ == text@.take(it.index()),
        {
            chars.push(c);
            assert(chars@ =~= text@.take(chars.len() as int));
        }
        assert(chars@ =~= text@);
        Source { text, chars }
    }

    fn len(&self) -> (n: usize)
        ensures
            n == self.chars@.len(),
    {
        self.chars.len()
    }

    /// Whether the text at `pos` starts with `c`.
    fn begins_at(&self, pos: usize, c: char) -> (b: bool)
        requires
            pos <= self.chars@.len(),
        ensures
            b == begins(self.from(pos), c),
    {
        proof {
            lemma_rest(self.chars@, pos as nat);
        }
        pos < self.chars.len() && self.chars[pos] == c
    }

    /// Whether the text at `pos` starts with `word`.
    fn starts_at(&self, pos: usize, word: &[char]) -> (b: bool)
        requires
            pos <= self.chars@.len(),
        ensures
            b == starts_with(self.from(pos), word@),
    {
        proof {
            lemma_rest(self.chars@, pos as nat);
        }
        let n = self.chars.len();
        if word.len() > n - pos {
            return false;
        }
        let mut i: usize = 0;
        while i < word.len()
            invariant
                i <= word.len(),
                n == self.chars@.len(),
                pos + word.len() <= n,
                forall|j: int| 0 <= j < i ==> self.chars@[pos + j] == word@[j],
            decreases word.len() - i,
        {
            if self.chars[pos + i] != word[i] {
                assert(self.from(pos).take(word@.len() as int)[i as int] != word@[i as int]);
                return false;
            }
            i += 1;
        }
        assert(self.from(pos).take(word@.len() as int) =~= word@);
        true
    }

    /// The end of the blanks at `pos`.
    fn blanks_end(&self, pos: usize) -> (end: usize)
        requires
            pos <= self.chars@.len(),
        ensures
            pos <= end <= self.chars@.len(),
            end - pos == blanks(self.from(pos)),
    {
        let n = self.chars.len();
        let mut p = pos;
        loop
            invariant
                n == self.chars@.len(),
                pos <= p <= n,
                blanks(self.from(pos)) == (p - pos) + blanks(self.from(p)),
            decreases n - p,
        {
            proof {
                lemma_rest(self.chars@, p as nat);
            }
            if p < n && (self.chars[p] == '\t' || self.chars[p] == ' ') {
                p += 1;
            } else if p < n && n - p >= 2 && self.chars[p] == '\\' && (self.chars[p + 1] == '\n'
                || self.chars[p + 1] == '\r') {
                p += 2;
            } else {
                return p;
            }
        }
    }

    /// The end of the blanks at `pos`, which must be there.
    fn spaces_end(&self, pos: usize) -> (end: Option<usize>)
        requires
            pos <= self.chars@.len(),
        ensures
            match end {
                Some(e) => pos < e <= self.chars@.len() && spaces(self.from(pos)) == Some(
                    (e - pos) as nat,
                ),
                None => spaces(self.from(pos)) is None,
            },
    {
        let end = self.blanks_end(pos);
        if end > pos {
            Some(end)
        } else {
            None
        }
    }

    /// The end of the line ends at `pos`.
    fn lines_end(&self, pos: usize) -> (end: usize)
        requires
            pos <= self.chars@.len(),
        ensures
            pos <= end <= self.chars@.len(),
            end - pos == lines(self.from(pos)),
    {
        let n = self.chars.len();
        let mut p = pos;
        loop
            invariant
                n == self.chars@.len(),
                pos <= p <= n,
                lines(self.from(pos)) == (p - pos) + lines(self.from(p)),
            decreases n - p,
        {
            let b = self.blanks_end(p);
            proof {
                lemma_rest(self.chars@, p as nat);
                lemma_rest(self.chars@, b as nat);
            }
            if b < n && (self.chars[b] == '\n' || self.chars[b] == '\r') {
                p = b + 1;
            } else {
                return p;
            }
        }
    }

    /// The end of the name at `pos`.
    fn word_end(&self, pos: usize) -> (end: usize)
        requires
            pos <= self.chars@.len(),
        ensures
            pos <= end <= self.chars@.len(),
            end - pos == word(self.from(pos)),
    {
        let n = self.chars.len();
        let mut p = pos;
        loop
            invariant
                n == self.chars@.len(),
                pos <= p <= n,
                word(self.from(pos)) == (p - pos) + word(self.from(p)),
            decreases n - p,
        {
            proof {
                lemma_rest(self.chars@, p as nat);
            }
            if p < n && (('a' <= self.chars[p] && self.chars[p] <= 'z') || self.chars[p] == '_') {
                p += 1;
            } else {
                return p;
            }
        }
    }

    /// The name between two offsets.
    fn name(&self, from: usize, to: usize) -> (name: String)
        requires
            self.wf(),
            from <= to <= self.chars@.len(),
        ensures
            name@ == self.from(from).take(to - from),
    {
        proof {
            lemma_rest(self.chars@, from as nat);
        }
        let name = self.text.substring_char(from, to).to_owned();
        assert(name@ =~= self.from(from).take(to - from));
        name
    }
}

/// What [`tier`] stands for.
proof fn lemma_tier(level: nat, s: Seq<char>)
    ensures
        tier(level, s) == {
            if level >= 4 {
                atom(s)
            } else {
                let (lhs, n) = tier(level + 1, s);
                let (e, m) = tail(level, rest(s, n), lhs);
                (e, n + m)
            }
        },
{
    reveal_with_fuel(tier, 2);
    reveal_with_fuel(tail, 2);
    reveal_with_fuel(atom, 2);
}

/// What [`tail`] stands for.
proof fn lemma_tail(level: nat, s: Seq<char>, lhs: ExprView)
    ensures
        tail(level, s, lhs) == {
            if level >= 4 {
                (lhs, 0)
            } else {
                let b = blanks(s);
                match operator_at(level, rest(s, b)) {
                    None => (lhs, 0),
                    Some((op, k)) => {
                        let start = b + k + blanks(rest(s, b + k));
                        let (rhs, n) = tier(level + 1, rest(s, start));
                        let (e, m) = tail(
                            level,
                            rest(s, start + n),
                            ExprView::Operation(op, Box::new(lhs), Box::new(rhs)),
                        );
                        (e, start + n + m)
                    },
                }
            }
        },
{
    reveal_with_fuel(tail, 2);
    reveal_with_fuel(tier, 2);
}

/// What [`atom`] stands for.
proof fn lemma_atom(s: Seq<char>)
    ensures
        atom(s) == {
            match number(s) {
                Some((v, n)) => (ExprView::Value(v), n),
                None => match group(s) {
                    Some(r) => r,
                    None => match call(s) {
                        Some(r) => r,
                        None => match conditional(s) {
                            Some(r) => r,
                            None => (ExprView::Variable(s.take(word(s) as int)), word(s)),
                        },
                    },
                },
            }
        },
{
    reveal_with_fuel(atom, 2);
    reveal_with_fuel(group, 2);
    reveal_with_fuel(call, 2);
    reveal_with_fuel(conditional, 2);
}

/// What [`group`] stands for.
proof fn lemma_group(s: Seq<char>)
    ensures
        group(s) == {
            if begins(s, '(') {
                let start = 1 + blanks(rest(s, 1));
                let (e, n) = tier(0, rest(s, start));
                let end = start + n + blanks(rest(s, start + n));
                if begins(rest(s, end), ')') {
                    Some((e, end + 1))
                } else {
                    None
                }
            } else {
                None
            }
        },
{
    reveal_with_fuel(group, 2);
    reveal_with_fuel(tier, 2);
}

/// What [`call`] stands for.
proof fn lemma_call(s: Seq<char>)
    ensures
        call(s) == {
            let w = word(s);
            let open = w + blanks(rest(s, w));
            if begins(rest(s, open), '(') {
                let (args, n) = arguments(rest(s, open + 1));
                match list_end(rest(s, open + 1 + n)) {
                    Some(k) => Some((ExprView::FuncCall(s.take(w as int), args), open + 1 + n + k)),
                    None => None,
                }
            } else {
                None
            }
        },
{
    reveal_with_fuel(call, 2);
    reveal_with_fuel(arguments, 2);
}

/// What [`conditional`] stands for.
proof fn lemma_conditional(s: Seq<char>)
    ensures
        conditional(s) == {
            if !starts_with(s, seq!['i', 'f']) {
                None
            } else {
                match spaces(rest(s, 2)) {
                    None => None,
                    Some(b) => {
                        let (c, n) = tier(0, rest(s, 2 + b));
                        let p = 2 + b + n;
                        match clause(rest(s, p), seq!['t', 'h', 'e', 'n']) {
                            None => None,
                            Some((t, n1)) => match clause(rest(s, p + n1), seq!['e', 'l', 's', 'e']) {
                                None => None,
                                Some((f, n2)) => Some(
                                    (ExprView::If(Box::new(c), Box::new(t), Box::new(f)), p + n1 + n2),
                                ),
                            },
                        }
                    },
                }
            }
        },
{
    reveal(conditional);
    reveal(tier);
    reveal(clause);
}

/// What [`clause`] stands for.
proof fn lemma_clause(s: Seq<char>, word: Seq<char>)
    ensures
        clause(s, word) == {
            match spaces(s) {
                None => None,
                Some(b) => if !starts_with(rest(s, b), word) {
                    None
                } else {
                    match spaces(rest(s, b + word.len())) {
                        None => None,
                        Some(sp) => {
                            let start = b + word.len() + sp;
                            let (e, n) = tier(0, rest(s, start));
                            Some((e, start + n))
                        },
                    }
                },
            }
        },
{
    reveal_with_fuel(clause, 2);
    reveal_with_fuel(tier, 2);
}

/// What [`argument`] stands for.
proof fn lemma_argument(s: Seq<char>)
    ensures
        argument(s) == {
            let b = blanks(s);
            let (e, n) = tier(0, rest(s, b));
            (e, b + n + blanks(rest(s, b + n)))
        },
{
    reveal_with_fuel(argument, 2);
    reveal_with_fuel(tier, 2);
}

/// What [`arguments`] stands for.
proof fn lemma_arguments(s: Seq<char>)
    ensures
        arguments(s) == {
            let (first, n) = argument(s);
            let (all, m) = more_arguments(rest(s, n), seq![first]);
            (all, n + m)
        },
{
    reveal_with_fuel(arguments, 2);
    reveal_with_fuel(argument, 2);
    reveal_with_fuel(more_arguments, 2);
}

/// What [`more_arguments`] stands for.
proof fn lemma_more_arguments(s: Seq<char>, done: Seq<ExprView>)
    ensures
        more_arguments(s, done) == {
            if begins(s, ',') {
                let (e, n) = argument(rest(s, 1));
                let (all, m) = more_arguments(rest(s, 1 + n), done.push(e));
                (all, 1 + n + m)
            } else {
                (done, 0)
            }
        },
{
    reveal_with_fuel(more_arguments, 2);
    reveal_with_fuel(argument, 2);
}

/// The decreasing measure of the expression functions at a level.
spec fn rank(level: nat) -> nat {
    if level >= 4 {
        6
    } else {
        (20 - 2 * level) as nat
    }
}

/// The number that the digits of a prefix denote is at most that of the whole.
proof fn lemma_decimal_grows(d: Seq<char>, k: nat)
    requires
        k <= d.len(),
    ensures
        decimal(d.take(k as int)) <= decimal(d),
    decreases d.len(),
{
    if k < d.len() {
        lemma_decimal_grows(d.drop_last(), k);
        assert(d.drop_last().take(k as int) =~= d.take(k as int));
    } else {
        assert(d.take(k as int) =~= d);
    }
}

impl<'a> Source<'a> {
    /// The end of the digits at `pos`.
    fn digits_end(&self, pos: usize) -> (end: usize)
        requires
            pos <= self.chars@.len(),
        ensures
            pos <= end <= self.chars@.len(),
            end - pos == digits(self.from(pos)),
            forall|i: int| pos <= i < end ==> is_digit(self.chars@[i]),
    {
        let n = self.chars.len();
        let mut p = pos;
        loop
            invariant
                n == self.chars@.len(),
                pos <= p <= n,
                digits(self.from(pos)) == (p - pos) + digits(self.from(p)),
                forall|i: int| pos <= i < p ==> is_digit(self.chars@[i]),
            decreases n - p,
        {
            proof {
                lemma_rest(self.chars@, p as nat);
            }
            if p < n && '0' <= self.chars[p] && self.chars[p] <= '9' {
                p += 1;
            } else {
                return p;
            }
        }
    }

    /// The number at `pos`, without a sign, and its end.
    fn unsigned_at(&self, pos: usize) -> (r: Option<(i32, usize)>)
        requires
            pos <= self.chars@.len(),
        ensures
            match r {
                Some((v, end)) => pos < end <= self.chars@.len() && unsigned(self.from(pos))
                    == Some((v, (end - pos) as nat)),
                None => unsigned(self.from(pos)) is None,
            },
    {
        let end = self.digits_end(pos);
        if end == pos {
            return None;
        }
        let ghost d = self.from(pos).take(end - pos);
        proof {
            lemma_rest(self.chars@, pos as nat);
        }
        let mut acc: i64 = 0;
        let mut p = pos;
        assert(d.take(0) =~= Seq::<char>::empty());
        while p < end
            invariant
                pos <= p <= end <= self.chars@.len(),
                d == self.from(pos).take(end - pos),
                d.len() == end - pos,
                end - pos == digits(self.from(pos)),
                forall|i: int| 0 <= i < d.len() ==> d[i] == self.chars@[pos + i],
                forall|i: int| pos <= i < end ==> is_digit(self.chars@[i]),
                0 <= acc <= i32::MAX,
                acc == decimal(d.take(p - pos)),
            decreases end - p,
        {
            let c = self.chars[p];
            let digit: i64 = (c as u32 - '0' as u32) as i64;
            proof {
                let next = d.take(p - pos + 1);
                assert(next.drop_last() =~= d.take(p - pos));
                assert(next.last() == c);
                assert(decimal(next) == acc * 10 + digit);
                lemma_decimal_grows(d, (p - pos + 1) as nat);
            }
            acc = acc * 10 + digit;
            if acc > i32::MAX as i64 {
                return None;
            }
            p += 1;
        }
        assert(d.take(end - pos) =~= d);
        Some((acc as i32, end))
    }

    /// The literal at `pos` and its end.
    fn number_at(&self, pos: usize) -> (r: Option<(i32, usize)>)
        requires
            pos <= self.chars@.len(),
        ensures
            match r {
                Some((v, end)) => pos < end <= self.chars@.len() && number(self.from(pos))
                    == Some((v, (end - pos) as nat)),
                None => number(self.from(pos)) is None,
            },
    {
        let n = self.chars.len();
        proof {
            lemma_rest(self.chars@, pos as nat);
        }
        if self.begins_at(pos, '-') {
            let b = self.blanks_end(pos + 1);
            match self.unsigned_at(b) {
                Some((n, end)) => {
                    return Some((-n, end));
                },
                None => {},
            }
        }
        let sign: usize = if self.begins_at(pos, '+') {
            1
        } else {
            0
        };
        let b = self.blanks_end(pos + sign);
        match self.unsigned_at(b) {
            Some((n, end)) => Some((n, end)),
            None => None,
        }
    }

    /// The end of a list at `pos`.
    fn list_end_at(&self, pos: usize) -> (r: Option<usize>)
        requires
            pos <= self.chars@.len(),
        ensures
            match r {
                Some(end) => pos < end <= self.chars@.len() && list_end(self.from(pos)) == Some(
                    (end - pos) as nat,
                ),
                None => list_end(self.from(pos)) is None,
            },
    {
        let n = self.chars.len();
        let ghost s = self.chars@;
        proof {
            lemma_shift(s, pos as nat, pos as nat);
        }
        let comma: usize = if self.begins_at(pos, ',') {
            1
        } else {
            0
        };
        let end = self.blanks_end(pos + comma);
        proof {
            lemma_shift(s, pos as nat, (pos + comma) as nat);
            lemma_shift(s, pos as nat, end as nat);
        }
        if self.begins_at(end, ')') {
            Some(end + 1)
        } else {
            None
        }
    }

    /// The operator of a level at `pos` and its end.
    fn operator(&self, pos: usize, level: usize) -> (r: Option<(Operator, usize)>)
        requires
            pos <= self.chars@.len(),
        ensures
            match r {
                Some((op, end)) => pos < end <= self.chars@.len() && operator_at(
                    level as nat,
                    self.from(pos),
                ) == Some((op, (end - pos) as nat)),
                None => operator_at(level as nat, self.from(pos)) is None,
            },
    {
        let n = self.chars.len();
        proof {
            lemma_rest(self.chars@, pos as nat);
        }
        if level == 0 {
            if self.starts_at(pos, &['=', '=']) {
                Some((Operator::Eq, pos + 2))
            } else if self.starts_at(pos, &['!', '=']) {
                Some((Operator::Neq, pos + 2))
            } else {
                None
            }
        } else if level == 1 {
            if self.starts_at(pos, &['=', '>']) {
                Some((Operator::Ge, pos + 2))
            } else if self.starts_at(pos, &['=', '<']) {
                Some((Operator::Le, pos + 2))
            } else if self.starts_at(pos, &['>', '=']) {
                Some((Operator::Ge, pos + 2))
            } else if self.starts_at(pos, &['<', '=']) {
                Some((Operator::Le, pos + 2))
            } else if self.begins_at(pos, '>') {
                Some((Operator::Gt, pos + 1))
            } else if self.begins_at(pos, '<') {
                Some((Operator::Lt, pos + 1))
            } else {
                None
            }
        } else if level == 2 {
            if self.begins_at(pos, '+') {
                Some((Operator::Add, pos + 1))
            } else if self.begins_at(pos, '-') {
                Some((Operator::Sub, pos + 1))
            } else {
                None
            }
        } else if level == 3 {
            if self.begins_at(pos, '*') {
                Some((Operator::Mul, pos + 1))
            } else if self.begins_at(pos, '/') {
                Some((Operator::Div, pos + 1))
            } else if self.begins_at(pos, '%') {
                Some((Operator::Rem, pos + 1))
            } else {
                None
            }
        } else {
            None
        }
    }
}

/// Reads an expression of a precedence level at `pos`.
fn parse_tier(src: &Source, pos: usize, level: usize) -> (r: (Expr, usize))
    requires
        src.wf(),
        pos <= src.chars@.len(),
    ensures
        pos <= r.1 <= src.chars@.len(),
        tier(level as nat, src.from(pos)) == (r.0@, (r.1 - pos) as nat),
    decreases src.chars@.len() - pos, rank(level as nat),
{
    proof {
        lemma_tier(level as nat, src.from(pos));
    }
    if level >= 4 {
        return parse_atom(src, pos);
    }
    let n = src.len();
    let (first, end) = parse_tier(src, pos, level + 1);
    let mut lhs = first;
    let mut p = end;
    proof {
        lemma_rest(src.chars@, pos as nat);
    }
    loop
        invariant
            src.wf(),
            level < 4,
            n == src.chars@.len(),
            pos <= p <= n,
            tier(level as nat, src.from(pos)) == (
                tail(level as nat, src.from(p), lhs@).0,
                ((p - pos) + tail(level as nat, src.from(p), lhs@).1) as nat,
            ),
        decreases n - p,
    {
        proof {
            lemma_rest(src.chars@, p as nat);
            lemma_tail(level as nat, src.from(p), lhs@);
        }
        let b = src.blanks_end(p);
        match src.operator(b, level) {
            None => {
                return (lhs, p);
            },
            Some((op, after)) => {
                let start = src.blanks_end(after);
                let (rhs, q) = parse_tier(src, start, level + 1);
                lhs = Expr::Operation(op, Box::new(lhs), Box::new(rhs));
                p = q;
            },
        }
    }
}

/// Reads an atom at `pos`.
fn parse_atom(src: &Source, pos: usize) -> (r: (Expr, usize))
    requires
        src.wf(),
        pos <= src.chars@.len(),
    ensures
        pos <= r.1 <= src.chars@.len(),
        atom(src.from(pos)) == (r.0@, (r.1 - pos) as nat),
    decreases src.chars@.len() - pos, 5nat,
{
    proof {
        lemma_atom(src.from(pos));
    }
    if let Some((v, end)) = src.number_at(pos) {
        return (Expr::Value(v), end);
    }
    if let Some(r) = parse_group(src, pos) {
        return r;
    }
    if let Some(r) = parse_call(src, pos) {
        return r;
    }
    if let Some(r) = parse_conditional(src, pos) {
        return r;
    }
    let end = src.word_end(pos);
    (Expr::Variable(src.name(pos, end)), end)
}

/// Reads an expression in parentheses at `pos`.
fn parse_group(src: &Source, pos: usize) -> (r: Option<(Expr, usize)>)
    requires
        src.wf(),
        pos <= src.chars@.len(),
    ensures
        match r {
            Some((e, end)) => pos <= end <= src.chars@.len() && group(src.from(pos)) == Some(
                (e@, (end - pos) as nat),
            ),
            None => group(src.from(pos)) is None,
        },
    decreases src.chars@.len() - pos, 4nat,
{
    proof {
        lemma_group(src.from(pos));
    }
    let n = src.len();
    proof {
        lemma_rest(src.chars@, pos as nat);
    }
    if !src.begins_at(pos, '(') {
        return None;
    }
    let start = src.blanks_end(pos + 1);
    let (e, after) = parse_tier(src, start, 0);
    let end = src.blanks_end(after);
    if src.begins_at(end, ')') {
        Some((e, end + 1))
    } else {
        None
    }
}

/// Reads one argument with the blanks around it at `pos`.
fn parse_argument(src: &Source, pos: usize) -> (r: (Expr, usize))
    requires
        src.wf(),
        pos <= src.chars@.len(),
    ensures
        pos <= r.1 <= src.chars@.len(),
        argument(src.from(pos)) == (r.0@, (r.1 - pos) as nat),
    decreases src.chars@.len() - pos, 30nat,
{
    proof {
        lemma_argument(src.from(pos));
    }
    proof {
        lemma_rest(src.chars@, pos as nat);
    }
    let b = src.blanks_end(pos);
    let (e, after) = parse_tier(src, b, 0);
    let end = src.blanks_end(after);
    (e, end)
}

/// Reads the arguments of a call at `pos`.
fn parse_arguments(src: &Source, pos: usize) -> (r: (Vec<Expr>, usize))
    requires
        src.wf(),
        pos <= src.chars@.len(),
    ensures
        pos <= r.1 <= src.chars@.len(),
        arguments(src.from(pos)) == (crate::ast::exprs(r.0@), (r.1 - pos) as nat),
    decreases src.chars@.len() - pos, 32nat,
{
    proof {
        lemma_arguments(src.from(pos));
    }
    let n = src.len();
    let ghost s = src.chars@;
    let (first, after) = parse_argument(src, pos);
    let mut args: Vec<Expr> = Vec::new();
    args.push(first);
    let mut p = after;
    proof {
        lemma_shift(s, pos as nat, after as nat);
        assert(crate::ast::exprs(args@) =~= seq![first@]);
    }
    loop
        invariant
            src.wf(),
            s == src.chars@,
            n == src.chars@.len(),
            pos <= p <= n,
            arguments(src.from(pos)) == (
                more_arguments(src.from(p), crate::ast::exprs(args@)).0,
                ((p - pos) + more_arguments(src.from(p), crate::ast::exprs(args@)).1) as nat,
            ),
        decreases n - p,
    {
        proof {
            lemma_shift(s, p as nat, p as nat);
            lemma_more_arguments(src.from(p), crate::ast::exprs(args@));
        }
        if !src.begins_at(p, ',') {
            return (args, p);
        }
        let ghost done = crate::ast::exprs(args@);
        let (e, q) = parse_argument(src, p + 1);
        args.push(e);
        proof {
            lemma_shift(s, p as nat, (p + 1) as nat);
            lemma_shift(s, p as nat, q as nat);
            assert(crate::ast::exprs(args@) =~= done.push(e@));
        }
        p = q;
    }
}

/// Reads a call at `pos`.
fn parse_call(src: &Source, pos: usize) -> (r: Option<(Expr, usize)>)
    requires
        src.wf(),
        pos <= src.chars@.len(),
    ensures
        match r {
            Some((e, end)) => pos <= end <= src.chars@.len() && call(src.from(pos)) == Some(
                (e@, (end - pos) as nat),
            ),
            None => call(src.from(pos)) is None,
        },
    decreases src.chars@.len() - pos, 4nat,
{
    proof {
        lemma_call(src.from(pos));
    }
    let n = src.len();
    let ghost s = src.chars@;
    let w = src.word_end(pos);
    let open = src.blanks_end(w);
    proof {
        lemma_shift(s, pos as nat, w as nat);
        lemma_shift(s, pos as nat, open as nat);
    }
    if !src.begins_at(open, '(') {
        return None;
    }
    let (args, after) = parse_arguments(src, open + 1);
    proof {
        lemma_shift(s, pos as nat, (open + 1) as nat);
        lemma_shift(s, pos as nat, after as nat);
        lemma_shift(s, pos as nat, pos as nat);
    }
    match src.list_end_at(after) {
        Some(end) => {
            let name = src.name(pos, w);
            let e = Expr::FuncCall(name, args);
            assert(e@->FuncCall_1 =~= crate::ast::exprs(args@));
            Some((e, end))
        },
        None => None,
    }
}

/// Reads a branch of a conditional at `pos`.
fn parse_clause(src: &Source, pos: usize, word: &[char]) -> (r: Option<(Expr, usize)>)
    requires
        src.wf(),
        pos <= src.chars@.len(),
    ensures
        match r {
            Some((e, end)) => pos <= end <= src.chars@.len() && clause(src.from(pos), word@)
                == Some((e@, (end - pos) as nat)),
            None => clause(src.from(pos), word@) is None,
        },
    decreases src.chars@.len() - pos, 3nat,
{
    proof {
        lemma_clause(src.from(pos), word@);
    }
    let n = src.len();
    let ghost s = src.chars@;
    let at = match src.spaces_end(pos) {
        Some(at) => at,
        None => {
            return None;
        },
    };
    proof {
        lemma_shift(s, pos as nat, at as nat);
    }
    if !src.starts_at(at, word) {
        return None;
    }
    proof {
        lemma_shift(s, at as nat, at as nat);
        lemma_shift(s, pos as nat, (at + word.len()) as nat);
    }
    let start = match src.spaces_end(at + word.len()) {
        Some(start) => start,
        None => {
            return None;
        },
    };
    proof {
        lemma_shift(s, pos as nat, start as nat);
    }
    let (e, end) = parse_tier(src, start, 0);
    Some((e, end))
}

/// Reads a conditional at `pos`.
fn parse_conditional(src: &Source, pos: usize) -> (r: Option<(Expr, usize)>)
    requires
        src.wf(),
        pos <= src.chars@.len(),
    ensures
        match r {
            Some((e, end)) => pos <= end <= src.chars@.len() && conditional(src.from(pos))
                == Some((e@, (end - pos) as nat)),
            None => conditional(src.from(pos)) is None,
        },
    decreases src.chars@.len() - pos, 4nat,
{
    proof {
        lemma_conditional(src.from(pos));
    }
    let n = src.len();
    let ghost s = src.chars@;
    proof {
        lemma_shift(s, pos as nat, pos as nat);
    }
    if !src.starts_at(pos, &['i', 'f']) {
        return None;
    }
    proof {
        lemma_shift(s, pos as nat, (pos + 2) as nat);
    }
    let at = match src.spaces_end(pos + 2) {
        Some(at) => at,
        None => {
            return None;
        },
    };
    proof {
        lemma_shift(s, pos as nat, at as nat);
    }
    let (c, mid) = parse_tier(src, at, 0);
    proof {
        lemma_shift(s, pos as nat, mid as nat);
    }
    let (t, last) = match parse_clause(src, mid, &['t', 'h', 'e', 'n']) {
        Some(r) => r,
        None => {
            return None;
        },
    };
    proof {
        lemma_shift(s, pos as nat, last as nat);
    }
    let (f, end) = match parse_clause(src, last, &['e', 'l', 's', 'e']) {
        Some(r) => r,
        None => {
            return None;
        },
    };
    Some((Expr::If(Box::new(c), Box::new(t), Box::new(f)), end))
}

/// Reads an expression and the line ends after it at `pos`.
fn closing_at(src: &Source, pos: usize) -> (r: (Expr, usize))
    requires
        src.wf(),
        pos <= src.chars@.len(),
    ensures
        pos <= r.1 <= src.chars@.len(),
        closing(src.from(pos)) == (r.0@, (r.1 - pos) as nat),
{
    let (e, after) = parse_tier(src, pos, 0);
    let end = src.lines_end(after);
    proof {
        lemma_shift(src.chars@, pos as nat, after as nat);
    }
    (e, end)
}

/// Reads `=` and what is assigned at `pos`.
fn assigned_at(src: &Source, pos: usize) -> (r: Option<(Expr, usize)>)
    requires
        src.wf(),
        pos <= src.chars@.len(),
    ensures
        match r {
            Some((e, end)) => pos < end <= src.chars@.len() && assigned(src.from(pos)) == Some(
                (e@, (end - pos) as nat),
            ),
            None => assigned(src.from(pos)) is None,
        },
{
    let n = src.len();
    let ghost s = src.chars@;
    let b = src.blanks_end(pos);
    proof {
        lemma_shift(s, pos as nat, b as nat);
    }
    if !src.begins_at(b, '=') {
        return None;
    }
    proof {
        lemma_shift(s, b as nat, b as nat);
        lemma_shift(s, pos as nat, (b + 1) as nat);
    }
    let start = src.blanks_end(b + 1);
    proof {
        lemma_shift(s, pos as nat, start as nat);
    }
    let (e, end) = closing_at(src, start);
    Some((e, end))
}

/// Reads the word that starts a statement at `pos`.
fn keyword_at(src: &Source, pos: usize, word: &[char]) -> (r: Option<usize>)
    requires
        src.wf(),
        pos <= src.chars@.len(),
    ensures
        match r {
            Some(end) => pos < end <= src.chars@.len() && keyword(src.from(pos), word@) == Some(
                (end - pos) as nat,
            ),
            None => keyword(src.from(pos), word@) is None,
        },
{
    let n = src.len();
    let ghost s = src.chars@;
    let b = src.blanks_end(pos);
    proof {
        lemma_shift(s, pos as nat, b as nat);
        lemma_shift(s, b as nat, b as nat);
    }
    if !src.starts_at(b, word) {
        return None;
    }
    proof {
        lemma_shift(s, pos as nat, (b + word.len()) as nat);
    }
    src.spaces_end(b + word.len())
}

/// Reads one parameter with the blanks around it at `pos`.
fn parse_parameter(src: &Source, pos: usize) -> (r: (String, usize))
    requires
        src.wf(),
        pos <= src.chars@.len(),
    ensures
        pos <= r.1 <= src.chars@.len(),
        parameter(src.from(pos)) == (r.0@, (r.1 - pos) as nat),
{
    let ghost s = src.chars@;
    let b = src.blanks_end(pos);
    let w = src.word_end(b);
    let end = src.blanks_end(w);
    proof {
        lemma_shift(s, pos as nat, b as nat);
        lemma_shift(s, pos as nat, w as nat);
    }
    (src.name(b, w), end)
}

/// Reads the parameters of a definition at `pos`.
fn parse_parameters(src: &Source, pos: usize) -> (r: (Vec<String>, usize))
    requires
        src.wf(),
        pos <= src.chars@.len(),
    ensures
        pos <= r.1 <= src.chars@.len(),
        parameters(src.from(pos)) == (crate::ast::names(r.0@), (r.1 - pos) as nat),
{
    let n = src.len();
    let ghost s = src.chars@;
    let (first, after) = parse_parameter(src, pos);
    let mut params: Vec<String> = Vec::new();
    let ghost head = first@;
    params.push(first);
    let mut p = after;
    proof {
        lemma_shift(s, pos as nat, after as nat);
        assert(crate::ast::names(params@) =~= seq![head]);
    }
    loop
        invariant
            src.wf(),
            s == src.chars@,
            n == src.chars@.len(),
            pos <= p <= n,
            parameters(src.from(pos)) == (
                more_parameters(src.from(p), crate::ast::names(params@)).0,
                ((p - pos) + more_parameters(src.from(p), crate::ast::names(params@)).1) as nat,
            ),
        decreases n - p,
    {
        proof {
            lemma_shift(s, p as nat, p as nat);
        }
        if !src.begins_at(p, ',') {
            return (params, p);
        }
        let ghost done = crate::ast::names(params@);
        let (name, q) = parse_parameter(src, p + 1);
        let ghost added = name@;
        params.push(name);
        proof {
            lemma_shift(s, p as nat, (p + 1) as nat);
            lemma_shift(s, p as nat, q as nat);
            assert(crate::ast::names(params@) =~= done.push(added));
        }
        p = q;
    }
}

/// Reads a `print` at `pos`.
fn parse_print(src: &Source, pos: usize) -> (r: Option<(Stmt, usize)>)
    requires
        src.wf(),
        pos <= src.chars@.len(),
    ensures
        match r {
            Some((stmt, end)) => pos < end <= src.chars@.len() && print(src.from(pos)) == Some(
                (stmt@, (end - pos) as nat),
            ),
            None => print(src.from(pos)) is None,
        },
{
    let at = match keyword_at(src, pos, &['p', 'r', 'i', 'n', 't']) {
        Some(at) => at,
        None => {
            return None;
        },
    };
    proof {
        lemma_shift(src.chars@, pos as nat, at as nat);
    }
    let (e, end) = closing_at(src, at);
    Some((Stmt::Print(e), end))
}

/// Reads a `let` at `pos`.
fn parse_binding(src: &Source, pos: usize) -> (r: Option<(Stmt, usize)>)
    requires
        src.wf(),
        pos <= src.chars@.len(),
    ensures
        match r {
            Some((stmt, end)) => pos < end <= src.chars@.len() && binding(src.from(pos)) == Some(
                (stmt@, (end - pos) as nat),
            ),
            None => binding(src.from(pos)) is None,
        },
{
    let ghost s = src.chars@;
    let at = match keyword_at(src, pos, &['l', 'e', 't']) {
        Some(at) => at,
        None => {
            return None;
        },
    };
    let w = src.word_end(at);
    proof {
        lemma_shift(s, pos as nat, at as nat);
        lemma_shift(s, pos as nat, w as nat);
    }
    match assigned_at(src, w) {
        Some((e, end)) => Some((Stmt::Binding(src.name(at, w), e), end)),
        None => None,
    }
}

/// Reads the head of a definition at `pos`.
#[verifier::rlimit(50)]
fn parse_header(src: &Source, pos: usize) -> (r: Option<(String, Vec<String>, usize)>)
    requires
        src.wf(),
        pos <= src.chars@.len(),
    ensures
        match r {
            Some((name, params, end)) => pos < end <= src.chars@.len() && header(src.from(pos))
                == Some((name@, crate::ast::names(params@), (end - pos) as nat)),
            None => header(src.from(pos)) is None,
        },
{
    let n = src.len();
    let ghost s = src.chars@;
    let at = match keyword_at(src, pos, &['d', 'e', 'f']) {
        Some(at) => at,
        None => {
            return None;
        },
    };
    let w = src.word_end(at);
    let open = src.blanks_end(w);
    proof {
        lemma_shift(s, pos as nat, at as nat);
        lemma_shift(s, pos as nat, w as nat);
        lemma_shift(s, pos as nat, open as nat);
    }
    if !src.begins_at(open, '(') {
        return None;
    }
    let (params, after) = parse_parameters(src, open + 1);
    proof {
        lemma_shift(s, pos as nat, (open + 1) as nat);
        lemma_shift(s, pos as nat, after as nat);
    }
    match src.list_end_at(after) {
        Some(close) => Some((src.name(at, w), params, close)),
        None => None,
    }
}

/// Reads a `def` at `pos`.
#[verifier::rlimit(50)]
fn parse_define(src: &Source, pos: usize) -> (r: Option<(Stmt, usize)>)
    requires
        src.wf(),
        pos <= src.chars@.len(),
    ensures
        match r {
            Some((stmt, end)) => pos < end <= src.chars@.len() && define(src.from(pos)) == Some(
                (stmt@, (end - pos) as nat),
            ),
            None => define(src.from(pos)) is None,
        },
{
    let (name, params, close) = match parse_header(src, pos) {
        Some(r) => r,
        None => {
            return None;
        },
    };
    proof {
        lemma_shift(src.chars@, pos as nat, close as nat);
    }
    match assigned_at(src, close) {
        Some((e, end)) => Some((Stmt::Define(name, params, e), end)),
        None => None,
    }
}

/// Reads a statement at `pos`.
fn parse_statement(src: &Source, pos: usize) -> (r: Option<(Stmt, usize)>)
    requires
        src.wf(),
        pos <= src.chars@.len(),
    ensures
        match r {
            Some((stmt, end)) => pos < end <= src.chars@.len() && statement(src.from(pos))
                == Some((stmt@, (end - pos) as nat)),
            None => statement(src.from(pos)) is None,
        },
{
    if let Some(r) = parse_print(src, pos) {
        return Some(r);
    }
    if let Some(r) = parse_binding(src, pos) {
        return Some(r);
    }
    parse_define(src, pos)
}

/// Reads a source text as a sequence of statements. The text must hold
/// nothing else: where no statement starts and the text goes on, the error
/// gives the offset.
#[verifier::rlimit(50)]
pub fn parse(input: &str) -> (r: Result<Vec<Stmt>, ParseError>)
    ensures
        match r {
            Ok(stmts) => program(input@) == Ok::<Seq<StmtView>, ParseError>(
                crate::ast::views(stmts@),
            ),
            Err(err) => program(input@) == Err::<Seq<StmtView>, ParseError>(err),
        },
{
    let src = Source::new(input);
    let n = src.len();
    let ghost s = src.chars@;
    let mut stmts: Vec<Stmt> = Vec::new();
    let mut p: usize = 0;
    proof {
        lemma_shift(s, 0, 0);
        assert(src.from(0) =~= s);
        assert(crate::ast::views(stmts@) =~= Seq::<StmtView>::empty());
    }
    loop
        invariant
            src.wf(),
            s == src.chars@,
            s == input@,
            n == s.len(),
            p <= n,
            statements(s, Seq::empty()) == (
                statements(src.from(p), crate::ast::views(stmts@)).0,
                (p + statements(src.from(p), crate::ast::views(stmts@)).1) as nat,
            ),
        decreases n - p,
    {
        proof {
            lemma_shift(s, p as nat, p as nat);
        }
        match parse_statement(&src, p) {
            None => {
                if p == n {
                    return Ok(stmts);
                } else {
                    return Err(ParseError { offset: p });
                }
            },
            Some((stmt, q)) => {
                let ghost done = crate::ast::views(stmts@);
                let ghost added = stmt@;
                stmts.push(stmt);
                proof {
                    lemma_shift(s, p as nat, q as nat);
                    assert(crate::ast::views(stmts@) =~= done.push(added));
                }
                p = q;
            },
        }
    }
}

/// What is left after `pos` and then `k` characters is what is left after
/// `pos + k`.
proof fn lemma_shift(s: Seq<char>, pos: nat, to: nat)
    requires
        pos <= to <= s.len(),
    ensures
        rest(rest(s, pos), (to - pos) as nat) == rest(s, to),
        rest(s, pos).len() == s.len() - pos,
{
    assert(rest(rest(s, pos), (to - pos) as nat) =~= rest(s, to));
}

/// What is left of a text is the text from an offset on.
proof fn lemma_rest(s: Seq<char>, pos: nat)
    requires
        pos <= s.len(),
    ensures
        rest(s, pos).len() == s.len() - pos,
        forall|i: int| 0 <= i < s.len() - pos ==> #[trigger] rest(s, pos)[i] == s[pos + i],
        forall|k: nat| pos + k <= s.len() ==> #[trigger] rest(rest(s, pos), k) == rest(s, pos + k),
{
    assert forall|k: nat| pos + k <= s.len() implies #[trigger] rest(rest(s, pos), k) == rest(
        s,
        pos + k,
    ) by {
        assert(rest(rest(s, pos), k) =~= rest(s, pos + k));
    }
}

} // verus!
