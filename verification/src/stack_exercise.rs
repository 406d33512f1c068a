//! Classical algorithms built on the stack: balanced-bracket validation,
//! radix conversion, postfix evaluation and infix-to-postfix conversion.

use crate::stack::{pop_all, Stack, StackError};
use vstd::prelude::*;

verus! {

/// True for the three opening bracket characters.
pub open spec fn is_opening_bracket(c: char) -> bool {
    c == '(' || c == '[' || c == '{'
}

/// True for the three closing bracket characters.
pub open spec fn is_closing_bracket(c: char) -> bool {
    c == ')' || c == ']' || c == '}'
}

/// The opening bracket that a closing bracket pairs with. Characters other
/// than `)` and `]` map to `{`, as only closing brackets are ever looked up.
pub open spec fn opening_bracket_for(c: char) -> char {
    if c == ')' {
        '('
    } else if c == ']' {
        '['
    } else {
        '{'
    }
}

/// The closing bracket that an opening bracket pairs with. Characters other
/// than `(` and `[` map to `}`, as only opening brackets are ever looked up.
pub open spec fn closing_bracket_for(c: char) -> char {
    if c == '(' {
        ')'
    } else if c == '[' {
        ']'
    } else {
        '}'
    }
}

/// One left-to-right scan of `s` with `opens` as the stack of currently
/// open brackets. An opening bracket is pushed; a closing bracket must find
/// its partner on top of the stack, otherwise the scan fails; every other
/// character is skipped. A scan that reaches the end succeeds, whether or
/// not open brackets remain unclosed.
pub open spec fn brackets_balanced_from(s: Seq<char>, opens: Seq<char>) -> bool
    decreases s.len(),
{
    if s.len() == 0 {
        true
    } else {
        let c = s[0];
        if is_opening_bracket(c) {
            brackets_balanced_from(s.drop_first(), opens.push(c))
        } else if is_closing_bracket(c) {
            if opens.len() == 0 {
                false
            } else if opens.last() == opening_bracket_for(c) {
                brackets_balanced_from(s.drop_first(), opens.drop_last())
            } else {
                false
            }
        } else {
            brackets_balanced_from(s.drop_first(), opens)
        }
    }
}

/// Whether the bracket characters of `s` form a validly nested sequence.
/// A string whose openers are all unclosed still counts as balanced: the
/// scan does not require the stack to be empty at the end.
pub open spec fn brackets_balanced(s: Seq<char>) -> bool {
    brackets_balanced_from(s, Seq::empty())
}

/// Whether `c` is an opening bracket.
pub fn is_left_bracket(c: char) -> (r: bool)
    ensures
        r == is_opening_bracket(c),
{
    c == '(' || c == '[' || c == '{'
}

/// Whether `c` is a closing bracket.
pub fn is_right_bracket(c: char) -> (r: bool)
    ensures
        r == is_closing_bracket(c),
{
    c == ')' || c == ']' || c == '}'
}

/// The opening bracket required on top of the stack for `right_bracket`.
pub fn get_require_left_bracket(right_bracket: char) -> (r: char)
    ensures
        r == opening_bracket_for(right_bracket),
{
    if ')' == right_bracket {
        '('
    } else if ']' == right_bracket {
        '['
    } else {
        '{'
    }
}

/// The closing bracket that would pair with `left_bracket`.
pub fn get_require_right_bracket(left_bracket: char) -> (r: char)
    ensures
        r == closing_bracket_for(left_bracket),
{
    if '(' == left_bracket {
        ')'
    } else if '[' == left_bracket {
        ']'
    } else {
        '}'
    }
}

/// Collects the characters of `s` into a vector.
fn collect_chars(s: &str) -> (r: Vec<char>)
    ensures
        r@ == s@,
{
    let mut chars: Vec<char> = Vec::new();
    let len = s.unicode_len();
    let mut i: usize = 0;
    while i < len
        invariant
            i <= len,
            len == s@.len(),
            chars@ == s@.take(i as int),
        decreases len - i,
    {
        chars.push(s.get_char(i));
        proof {
            assert(s@.take(i + 1) =~= s@.take(i as int).push(s@[i as int]));
        }
        i = i + 1;
    }
    proof {
        assert(s@.take(len as int) =~= s@);
    }
    chars
}

/// Scans `expression` and reports whether its brackets are balanced,
/// maintaining the currently open brackets on a stack.
pub fn bracket_matching(expression: &str) -> (r: bool)
    ensures
        r == brackets_balanced(expression@),
{
    let ghost full: Seq<char> = expression@;
    let char_lst: Vec<char> = collect_chars(expression);
    let mut idx: usize = 0;
    let mut balance: bool = true;
    let mut stack: Stack<char> = Stack::new();
    proof {
        assert(full.skip(0) =~= full);
    }
    while idx < char_lst.len() && balance
        invariant
            idx <= char_lst@.len(),
            full == expression@,
            char_lst@ == full,
            stack.well_formed(),
            balance ==> brackets_balanced(full) == brackets_balanced_from(
                full.skip(idx as int),
                stack@,
            ),
            !balance ==> !brackets_balanced(full),
        decreases char_lst@.len() - idx,
    {
        let current_char = char_lst[idx];
        proof {
            assert(full.skip(idx as int)[0] == current_char);
            assert(full.skip(idx as int).drop_first() =~= full.skip(idx + 1));
        }
        if is_left_bracket(current_char) {
            stack.push(current_char);
        } else if is_right_bracket(current_char) {
            if stack.empty() {
                proof {
                    assert(full.skip(idx as int).len() > 0);
                    assert(!brackets_balanced_from(full.skip(idx as int), stack@));
                }
                return false;
            }
            let require_bracket: char = get_require_left_bracket(current_char);
            let top: char = match stack.peek() {
                Ok(c) => *c,
                Err(_) => current_char,
            };
            if top == require_bracket {
                let _ = stack.pop();
            } else {
                balance = false;
            }
        }
        idx = idx + 1;
    }
    proof {
        if balance {
            assert(full.skip(idx as int) =~= Seq::<char>::empty());
        }
    }
    balance
}

/// The character for a digit value below sixteen, using `0-9A-F`.
/// Values sixteen and above map to `F`; they are never looked up.
pub open spec fn digit_char(d: int) -> char {
    if d == 0 {
        '0'
    } else if d == 1 {
        '1'
    } else if d == 2 {
        '2'
    } else if d == 3 {
        '3'
    } else if d == 4 {
        '4'
    } else if d == 5 {
        '5'
    } else if d == 6 {
        '6'
    } else if d == 7 {
        '7'
    } else if d == 8 {
        '8'
    } else if d == 9 {
        '9'
    } else if d == 10 {
        'A'
    } else if d == 11 {
        'B'
    } else if d == 12 {
        'C'
    } else if d == 13 {
        'D'
    } else if d == 14 {
        'E'
    } else {
        'F'
    }
}

/// The representation of `num` in base `n`, most-significant digit first.
/// A number of zero or below has the empty representation, matching the
/// conversion loop, which emits no digit for it.
pub open spec fn radix_digits(num: int, n: int) -> Seq<char>
    decreases num,
    when num <= 0 || 2 <= n
    via radix_digits_decreases
{
    if num <= 0 || n < 2 {
        Seq::empty()
    } else {
        radix_digits(num / n, n).push(digit_char(num % n))
    }
}

#[via_fn]
proof fn radix_digits_decreases(num: int, n: int) {
    if num > 0 && 2 <= n {
        vstd::arithmetic::div_mod::lemma_div_decreases(num, n);
        vstd::arithmetic::div_mod::lemma_div_pos_is_pos(num, n);
    }
}

/// The digit characters held by a digit stack, read from the top down,
/// which is the order in which popping emits them.
pub open spec fn stack_digits(s: Seq<u32>) -> Seq<char>
    decreases s.len(),
{
    if s.len() == 0 {
        Seq::empty()
    } else {
        seq![digit_char(s.last() as int)] + stack_digits(s.drop_last())
    }
}

/// The character for a digit value below sixteen, using `0-9A-F`.
fn digit_for(d: u32) -> (c: char)
    requires
        d < 16,
    ensures
        c == digit_char(d as int),
{
    if d == 0 {
        '0'
    } else if d == 1 {
        '1'
    } else if d == 2 {
        '2'
    } else if d == 3 {
        '3'
    } else if d == 4 {
        '4'
    } else if d == 5 {
        '5'
    } else if d == 6 {
        '6'
    } else if d == 7 {
        '7'
    } else if d == 8 {
        '8'
    } else if d == 9 {
        '9'
    } else if d == 10 {
        'A'
    } else if d == 11 {
        'B'
    } else if d == 12 {
        'C'
    } else if d == 13 {
        'D'
    } else if d == 14 {
        'E'
    } else {
        'F'
    }
}

/// Relies on `String::push`: appends the given character to the string.
#[verifier::external_body]
fn push_char(s: &mut String, c: char)
    ensures
        final(s)@ == old(s)@.push(c),
{
    s.push(c);
}

/// Converts a non-negative `num` to its representation in base `n`,
/// most-significant digit first, by stacking remainders and popping them.
/// Zero (and any negative input) yields the empty string, not `"0"`.
pub fn divide_by_n(num: i32, n: i32) -> (r: String)
    requires
        2 <= n <= 16,
    ensures
        r@ == radix_digits(num as int, n as int),
{
    let mut stack: Stack<u32> = Stack::new();
    let mut m: u32 = if num > 0 {
        num as u32
    } else {
        0
    };
    let nu: u32 = n as u32;
    while m > 0
        invariant
            2 <= nu <= 16,
            stack.well_formed(),
            forall|i: int| 0 <= i < stack@.len() ==> stack@[i] < 16,
            radix_digits(num as int, n as int) == radix_digits(m as int, nu as int)
                + stack_digits(stack@),
        decreases m,
    {
        let rem: u32 = m % nu;
        let ghost prev = stack@;
        stack.push(rem);
        proof {
            assert(stack@.drop_last() =~= prev);
            assert(stack_digits(stack@) =~= seq![digit_char(rem as int)] + stack_digits(prev));
            assert(radix_digits(m as int, nu as int) =~= radix_digits(
                m as int / nu as int,
                nu as int,
            ) + seq![digit_char(m as int % nu as int)]);
            assert(radix_digits(m as int / nu as int, nu as int) + (seq![
                digit_char(rem as int),
            ] + stack_digits(prev)) =~= radix_digits(m as int, nu as int) + stack_digits(prev));
        }
        m = m / nu;
    }
    let mut bin_str = String::new();
    while !stack.empty()
        invariant
            stack.well_formed(),
            forall|i: int| 0 <= i < stack@.len() ==> stack@[i] < 16,
            radix_digits(num as int, n as int) == bin_str@ + stack_digits(stack@),
        decreases stack@.len(),
    {
        let ghost prev = stack@;
        let ghost prev_str = bin_str@;
        let rem: u32 = match stack.pop() {
            Ok(v) => v,
            Err(_) => 0,
        };
        let c = digit_for(rem);
        push_char(&mut bin_str, c);
        proof {
            assert(stack_digits(prev) =~= seq![digit_char(rem as int)] + stack_digits(stack@));
            assert(prev_str + stack_digits(prev) =~= bin_str@ + stack_digits(stack@));
        }
    }
    proof {
        assert(bin_str@ + stack_digits(stack@) =~= bin_str@);
    }
    bin_str
}

/// True for the characters on which token streams are split: the Unicode
/// white-space characters, the set `char::is_whitespace` accepts.
pub open spec fn is_token_space(c: char) -> bool {
    c == ' ' || c == '\t' || c == '\n' || c == '\r' || c == '\u{000B}' || c == '\u{000C}'
        || c == '\u{0085}' || c == '\u{00A0}' || c == '\u{1680}' || ('\u{2000}' <= c
        && c <= '\u{200A}') || c == '\u{2028}' || c == '\u{2029}' || c == '\u{202F}'
        || c == '\u{205F}' || c == '\u{3000}'
}

/// Whether `c` is a white-space character that separates tokens.
fn is_space_char(c: char) -> (r: bool)
    ensures
        r == is_token_space(c),
{
    c == ' ' || c == '\t' || c == '\n' || c == '\r' || c == '\u{000B}' || c == '\u{000C}'
        || c == '\u{0085}' || c == '\u{00A0}' || c == '\u{1680}' || ('\u{2000}' <= c
        && c <= '\u{200A}') || c == '\u{2028}' || c == '\u{2029}' || c == '\u{202F}'
        || c == '\u{205F}' || c == '\u{3000}'
}

/// The tokens of `s` with `cur` as the partially read token: maximal runs
/// of non-space characters, in order.
pub open spec fn tokens_from(s: Seq<char>, cur: Seq<char>) -> Seq<Seq<char>>
    decreases s.len(),
{
    if s.len() == 0 {
        if cur.len() == 0 {
            Seq::empty()
        } else {
            seq![cur]
        }
    } else if is_token_space(s[0]) {
        if cur.len() == 0 {
            tokens_from(s.drop_first(), Seq::empty())
        } else {
            seq![cur] + tokens_from(s.drop_first(), Seq::empty())
        }
    } else {
        tokens_from(s.drop_first(), cur.push(s[0]))
    }
}

/// The whitespace-separated tokens of `s`, in order.
pub open spec fn tokens_of(s: Seq<char>) -> Seq<Seq<char>> {
    tokens_from(s, Seq::empty())
}

/// The views of a vector of strings.
pub open spec fn token_views(ts: Seq<String>) -> Seq<Seq<char>> {
    ts.map_values(|t: String| t@)
}

/// Splits `s` into its whitespace-separated tokens.
fn split_tokens(s: &str) -> (r: Vec<String>)
    ensures
        token_views(r@) == tokens_of(s@),
{
    let chars = collect_chars(s);
    let mut out: Vec<String> = Vec::new();
    let mut cur = String::new();
    let mut i: usize = 0;
    proof {
        assert(s@.skip(0) =~= s@);
        assert(token_views(out@) =~= Seq::<Seq<char>>::empty());
    }
    while i < chars.len()
        invariant
            i <= chars@.len(),
            chars@ == s@,
            tokens_of(s@) == token_views(out@) + tokens_from(s@.skip(i as int), cur@),
        decreases chars@.len() - i,
    {
        let c = chars[i];
        proof {
            assert(s@.skip(i as int)[0] == c);
            assert(s@.skip(i as int).drop_first() =~= s@.skip(i + 1));
        }
        if is_space_char(c) {
            if !cur.as_str().is_empty() {
                let ghost prev_out = out@;
                let ghost done = cur@;
                out.push(cur);
                cur = String::new();
                proof {
                    assert(token_views(out@) =~= token_views(prev_out).push(done));
                    assert(token_views(prev_out) + (seq![done] + tokens_from(
                        s@.skip(i + 1),
                        Seq::empty(),
                    )) =~= token_views(out@) + tokens_from(s@.skip(i + 1), Seq::empty()));
                }
            } else {
                proof {
                    assert(cur@ =~= Seq::<char>::empty());
                }
            }
        } else {
            push_char(&mut cur, c);
        }
        i = i + 1;
    }
    proof {
        assert(s@.skip(i as int) =~= Seq::<char>::empty());
    }
    if !cur.as_str().is_empty() {
        let ghost prev_out = out@;
        let ghost done = cur@;
        out.push(cur);
        proof {
            assert(token_views(out@) =~= token_views(prev_out).push(done));
            assert(token_views(prev_out) + seq![done] =~= token_views(out@));
        }
    } else {
        proof {
            assert(token_views(out@) + Seq::<Seq<char>>::empty() =~= token_views(out@));
        }
    }
    out
}

/// A token consisting of a single decimal digit; the only operand form the
/// postfix evaluator accepts.
pub open spec fn is_digit_token(t: Seq<char>) -> bool {
    t.len() == 1 && '0' <= t[0] && t[0] <= '9'
}

/// The numeric value of a decimal digit character.
pub open spec fn digit_value(c: char) -> i32 {
    ((c as u32) - 48) as i32
}

/// The addition operator token.
pub open spec fn is_plus_token(t: Seq<char>) -> bool {
    t.len() == 1 && t[0] == '+'
}

/// The subtraction operator token.
pub open spec fn is_minus_token(t: Seq<char>) -> bool {
    t.len() == 1 && t[0] == '-'
}

/// The multiplication operator token.
pub open spec fn is_star_token(t: Seq<char>) -> bool {
    t.len() == 1 && t[0] == '*'
}

/// What applying operator token `op` to `op1` and `op2` yields: the value,
/// a `DivisionByZeroError`, or `None` when the result leaves the `i32`
/// range. Every token other than `+`, `-` and `*` divides, as the four-way
/// dispatch falls through to division.
pub open spec fn op_apply(op: Seq<char>, op1: i32, op2: i32) -> Option<Result<i32, StackError>> {
    if is_plus_token(op) {
        match op1.checked_add(op2) {
            Some(v) => Some(Ok(v)),
            None => None,
        }
    } else if is_minus_token(op) {
        match op1.checked_sub(op2) {
            Some(v) => Some(Ok(v)),
            None => None,
        }
    } else if is_star_token(op) {
        match op1.checked_mul(op2) {
            Some(v) => Some(Ok(v)),
            None => None,
        }
    } else if op2 == 0 {
        Some(Err(StackError::DivisionByZeroError))
    } else {
        match op1.checked_div(op2) {
            Some(v) => Some(Ok(v)),
            None => None,
        }
    }
}

/// The result of running a postfix token stream against a stack of values.
pub enum EvalOutcome {
    /// Every token was consumed and the stack holds these values.
    Finished(Seq<i32>),
    /// An operator needed two operands but the stack held fewer.
    MissingOperands,
    /// A division met a zero divisor.
    DividedByZero,
    /// An arithmetic result left the `i32` range.
    Overflowed,
}

/// Runs the postfix tokens against `stack`: a digit token pushes its value;
/// any other token pops the second operand, then the first, and pushes the
/// operator's result.
pub open spec fn eval_tokens(tokens: Seq<Seq<char>>, stack: Seq<i32>) -> EvalOutcome
    decreases tokens.len(),
{
    if tokens.len() == 0 {
        EvalOutcome::Finished(stack)
    } else {
        let t = tokens[0];
        if is_digit_token(t) {
            eval_tokens(tokens.drop_first(), stack.push(digit_value(t[0])))
        } else if stack.len() < 2 {
            EvalOutcome::MissingOperands
        } else {
            let op1 = stack[stack.len() - 2];
            let op2 = stack.last();
            match op_apply(t, op1, op2) {
                None => EvalOutcome::Overflowed,
                Some(Err(_)) => EvalOutcome::DividedByZero,
                Some(Ok(v)) => eval_tokens(
                    tokens.drop_first(),
                    stack.drop_last().drop_last().push(v),
                ),
            }
        }
    }
}

/// Applies operator token `op` to `op1` and `op2`. Tokens `+`, `-` and `*`
/// select the matching arithmetic operation; every other token divides,
/// reporting `DivisionByZeroError` when `op2` is zero. The operands must
/// not make the selected operation leave the `i32` range.
pub fn do_calc(op: &str, op1: i32, op2: i32) -> (r: Result<i32, StackError>)
    requires
        op_apply(op@, op1, op2) is Some,
    ensures
        Some(r) == op_apply(op@, op1, op2),
{
    if op.unicode_len() == 1 {
        let c = op.get_char(0);
        if c == '+' {
            return Ok(op1 + op2);
        }
        if c == '-' {
            return Ok(op1 - op2);
        }
        if c == '*' {
            return Ok(op1 * op2);
        }
    }
    if 0 == op2 {
        return Err(StackError::DivisionByZeroError);
    }
    match op1.checked_div(op2) {
        Some(v) => Ok(v),
        None => Err(StackError::DivisionByZeroError),
    }
}

/// Evaluates a whitespace-tokenized postfix expression. An input shorter
/// than five characters is rejected as `Ok(None)` before any evaluation;
/// otherwise the result mirrors the run of the tokens: the value left on
/// top of the stack, `EmptyStackError` when an operand is missing (or no
/// value remains at the end), or `DivisionByZeroError` from a division.
/// No intermediate result may leave the `i32` range.
pub fn calculate_from_postfix(postfix: &str) -> (r: Result<Option<i32>, StackError>)
    requires
        postfix@.len() >= 5 ==> !(eval_tokens(tokens_of(postfix@), Seq::empty())
            is Overflowed),
    ensures
        postfix@.len() < 5 ==> r == Ok::<Option<i32>, StackError>(None),
        postfix@.len() >= 5 ==> match eval_tokens(tokens_of(postfix@), Seq::empty()) {
            EvalOutcome::Finished(stack) => if stack.len() > 0 {
                r == Ok::<Option<i32>, StackError>(Some(stack.last()))
            } else {
                r == Err::<Option<i32>, StackError>(StackError::EmptyStackError)
            },
            EvalOutcome::MissingOperands => r == Err::<Option<i32>, StackError>(
                StackError::EmptyStackError,
            ),
            EvalOutcome::DividedByZero => r == Err::<Option<i32>, StackError>(
                StackError::DivisionByZeroError,
            ),
            EvalOutcome::Overflowed => false,
        },
{
    if postfix.unicode_len() < 5 {
        return Ok(None);
    }
    let tokens = split_tokens(postfix);
    let ghost all = tokens_of(postfix@);
    let mut op_stack: Stack<i32> = Stack::new();
    let mut i: usize = 0;
    proof {
        assert(all.skip(0) =~= all);
    }
    while i < tokens.len()
        invariant
            i <= tokens@.len(),
            postfix@.len() >= 5,
            all == tokens_of(postfix@),
            token_views(tokens@) == all,
            !(eval_tokens(all, Seq::<i32>::empty()) is Overflowed),
            op_stack.well_formed(),
            eval_tokens(all, Seq::<i32>::empty()) == eval_tokens(all.skip(i as int), op_stack@),
        decreases tokens@.len() - i,
    {
        let token = &tokens[i];
        proof {
            assert(all[i as int] == tokens@[i as int]@);
            assert(all.skip(i as int)[0] == token@);
            assert(all.skip(i as int).drop_first() =~= all.skip(i + 1));
        }
        let is_digit = token.as_str().unicode_len() == 1 && {
            let c = token.as_str().get_char(0);
            '0' <= c && c <= '9'
        };
        if is_digit {
            let c = token.as_str().get_char(0);
            let value: i32 = ((c as u32) - 48) as i32;
            op_stack.push(value);
        } else {
            let op2: i32 = match op_stack.pop() {
                Ok(v) => v,
                Err(e) => {
                    return Err(e);
                },
            };
            let op1: i32 = match op_stack.pop() {
                Ok(v) => v,
                Err(e) => {
                    return Err(e);
                },
            };
            let res: i32 = match do_calc(token.as_str(), op1, op2) {
                Ok(v) => v,
                Err(e) => {
                    return Err(e);
                },
            };
            op_stack.push(res);
        }
        i = i + 1;
    }
    proof {
        assert(all.skip(i as int) =~= Seq::<Seq<char>>::empty());
    }
    match op_stack.pop() {
        Ok(v) => Ok(Some(v)),
        Err(e) => Err(e),
    }
}

/// A single-character operand of an infix expression: a decimal digit or
/// an upper-case letter.
pub open spec fn is_operand_char(c: char) -> bool {
    ('0' <= c && c <= '9') || ('A' <= c && c <= 'Z')
}

/// The precedence table: parentheses share level one, `+` and `-` level
/// two, `*` and `/` level three. Characters outside the table map to zero;
/// a valid infix expression contains none.
pub open spec fn precedence(c: char) -> int {
    if c == '(' || c == ')' {
        1
    } else if c == '+' || c == '-' {
        2
    } else if c == '*' || c == '/' {
        3
    } else {
        0
    }
}

/// A token the infix converter accepts: a single character that is an
/// operand, an arithmetic operator or a parenthesis.
pub open spec fn is_infix_token(t: Seq<char>) -> bool {
    t.len() == 1 && (is_operand_char(t[0]) || t[0] == '+' || t[0] == '-' || t[0] == '*'
        || t[0] == '/' || t[0] == '(' || t[0] == ')')
}

/// Whether every token of `s` is one the infix converter accepts.
pub open spec fn valid_infix_tokens(s: Seq<char>) -> bool {
    forall|i: int| 0 <= i < tokens_of(s).len() ==> is_infix_token(#[trigger] tokens_of(s)[i])
}

/// The single characters that a sequence of one-character tokens consists of.
pub open spec fn token_chars(tokens: Seq<Seq<char>>) -> Seq<char> {
    tokens.map_values(|t: Seq<char>| t[0])
}

/// Pops operators from `ops` onto `out` until an opening parenthesis is
/// popped and discarded; `None` when the stack runs out first.
pub open spec fn pop_until_open(ops: Seq<char>, out: Seq<char>) -> Option<(Seq<char>, Seq<char>)>
    decreases ops.len(),
{
    if ops.len() == 0 {
        None
    } else if ops.last() == '(' {
        Some((ops.drop_last(), out))
    } else {
        pop_until_open(ops.drop_last(), out.push(ops.last()))
    }
}

/// Pops operators of precedence at least `p` from `ops` onto `out`.
pub open spec fn pop_while_ge(ops: Seq<char>, out: Seq<char>, p: int) -> (Seq<char>, Seq<char>)
    decreases ops.len(),
{
    if ops.len() > 0 && precedence(ops.last()) >= p {
        pop_while_ge(ops.drop_last(), out.push(ops.last()), p)
    } else {
        (ops, out)
    }
}

/// One shunting-yard step per token: operands go to the output; `(` is
/// stacked; `)` moves operators to the output until its `(`; any other
/// operator first moves the stacked operators of precedence at least its
/// own. When the tokens end, the remaining operators are drained to the
/// output in pop order. Failing to find a `(` for a `)` is the one error.
pub open spec fn shunt(tokens: Seq<char>, ops: Seq<char>, out: Seq<char>) -> Result<
    Seq<char>,
    StackError,
>
    decreases tokens.len(),
{
    if tokens.len() == 0 {
        Ok(out + pop_all(ops))
    } else {
        let t = tokens[0];
        if is_operand_char(t) {
            shunt(tokens.drop_first(), ops, out.push(t))
        } else if t == '(' {
            shunt(tokens.drop_first(), ops.push(t), out)
        } else if t == ')' {
            match pop_until_open(ops, out) {
                Some(state) => shunt(tokens.drop_first(), state.0, state.1),
                None => Err(StackError::EmptyStackError),
            }
        } else {
            shunt(
                tokens.drop_first(),
                pop_while_ge(ops, out, precedence(t)).0.push(t),
                pop_while_ge(ops, out, precedence(t)).1,
            )
        }
    }
}

/// The output tokens joined into one string, each followed by a space.
pub open spec fn joined_with_spaces(ts: Seq<char>) -> Seq<char>
    decreases ts.len(),
{
    if ts.len() == 0 {
        Seq::empty()
    } else {
        seq![ts[0], ' '] + joined_with_spaces(ts.drop_first())
    }
}

/// The full conversion: `Ok(None)` when the brackets do not validate,
/// otherwise the joined shunting-yard output, or the error of a `)` that
/// found no `(` on the operator stack.
pub open spec fn infix_to_postfix(s: Seq<char>) -> Result<Option<Seq<char>>, StackError> {
    if !brackets_balanced(s) {
        Ok(None)
    } else {
        match shunt(token_chars(tokens_of(s)), Seq::empty(), Seq::empty()) {
            Ok(out) => Ok(Some(joined_with_spaces(out))),
            Err(e) => Err(e),
        }
    }
}

/// The conversion result with the output string replaced by its view, for
/// comparison against `infix_to_postfix`.
pub open spec fn converted_view(r: Result<Option<String>, StackError>) -> Result<
    Option<Seq<char>>,
    StackError,
> {
    match r {
        Ok(None) => Ok(None),
        Ok(Some(s)) => Ok(Some(s@)),
        Err(e) => Err(e),
    }
}

/// The precedence of an operator or parenthesis character.
fn prec_of(c: char) -> (p: i32)
    ensures
        p as int == precedence(c),
{
    if c == '(' || c == ')' {
        1
    } else if c == '+' || c == '-' {
        2
    } else if c == '*' || c == '/' {
        3
    } else {
        0
    }
}

/// Converts a whitespace-tokenized infix expression to postfix by the
/// shunting-yard algorithm. Returns `Ok(None)` when the brackets do not
/// validate; otherwise the postfix tokens, each followed by a space.
pub fn convert_infix_to_postfix(infix: &str) -> (r: Result<Option<String>, StackError>)
    requires
        valid_infix_tokens(infix@),
    ensures
        converted_view(r) == infix_to_postfix(infix@),
{
    if !bracket_matching(infix) {
        return Ok(None);
    }
    let tokens = split_tokens(infix);
    let ghost all = token_chars(tokens_of(infix@));
    let mut op_stack: Stack<char> = Stack::new();
    let mut postfix: Vec<char> = Vec::new();
    let mut i: usize = 0;
    proof {
        assert(all.skip(0) =~= all);
        assert(all.len() == tokens@.len());
    }
    while i < tokens.len()
        invariant
            i <= tokens@.len(),
            valid_infix_tokens(infix@),
            brackets_balanced(infix@),
            token_views(tokens@) == tokens_of(infix@),
            all == token_chars(tokens_of(infix@)),
            all.len() == tokens@.len(),
            op_stack.well_formed(),
            shunt(all, Seq::empty(), Seq::empty()) == shunt(
                all.skip(i as int),
                op_stack@,
                postfix@,
            ),
        decreases tokens@.len() - i,
    {
        let token = &tokens[i];
        proof {
            assert(tokens_of(infix@)[i as int] == tokens@[i as int]@);
            assert(is_infix_token(tokens_of(infix@)[i as int]));
            assert(all[i as int] == tokens@[i as int]@[0]);
            assert(all.skip(i as int)[0] == all[i as int]);
            assert(all.skip(i as int).drop_first() =~= all.skip(i + 1));
        }
        let c = token.as_str().get_char(0);
        if ('0' <= c && c <= '9') || ('A' <= c && c <= 'Z') {
            postfix.push(c);
        } else if c == '(' {
            op_stack.push(c);
        } else if c == ')' {
            loop
                invariant_except_break
                    op_stack.well_formed(),
                    all == token_chars(tokens_of(infix@)),
                    brackets_balanced(infix@),
                    shunt(all, Seq::empty(), Seq::empty()) == match pop_until_open(
                        op_stack@,
                        postfix@,
                    ) {
                        Some(state) => shunt(all.skip(i + 1), state.0, state.1),
                        None => Err(StackError::EmptyStackError),
                    },
                ensures
                    op_stack.well_formed(),
                    shunt(all, Seq::empty(), Seq::empty()) == shunt(
                        all.skip(i + 1),
                        op_stack@,
                        postfix@,
                    ),
                decreases op_stack@.len(),
            {
                let top: char = match op_stack.pop() {
                    Ok(t) => t,
                    Err(e) => {
                        return Err(e);
                    },
                };
                if top == '(' {
                    break;
                }
                postfix.push(top);
            }
        } else {
            let p = prec_of(c);
            loop
                invariant_except_break
                    op_stack.well_formed(),
                    p as int == precedence(c),
                    shunt(all, Seq::empty(), Seq::empty()) == shunt(
                        all.skip(i + 1),
                        pop_while_ge(op_stack@, postfix@, precedence(c)).0.push(c),
                        pop_while_ge(op_stack@, postfix@, precedence(c)).1,
                    ),
                ensures
                    op_stack.well_formed(),
                    shunt(all, Seq::empty(), Seq::empty()) == shunt(
                        all.skip(i + 1),
                        op_stack@.push(c),
                        postfix@,
                    ),
                decreases op_stack@.len(),
            {
                if op_stack.empty() {
                    break;
                }
                let top: char = match op_stack.peek() {
                    Ok(t) => *t,
                    Err(_) => c,
                };
                if prec_of(top) >= p {
                    let _ = op_stack.pop();
                    postfix.push(top);
                } else {
                    break;
                }
            }
            op_stack.push(c);
        }
        i = i + 1;
    }
    proof {
        assert(all.skip(i as int) =~= Seq::<char>::empty());
    }
    while !op_stack.empty()
        invariant
            op_stack.well_formed(),
            shunt(all, Seq::empty(), Seq::empty()) == Ok::<Seq<char>, StackError>(
                postfix@ + pop_all(op_stack@),
            ),
        decreases op_stack@.len(),
    {
        let ghost prev_ops = op_stack@;
        let ghost prev_out = postfix@;
        let top: char = match op_stack.pop() {
            Ok(t) => t,
            Err(_) => '(',
        };
        postfix.push(top);
        proof {
            assert(pop_all(prev_ops) =~= seq![top] + pop_all(op_stack@));
            assert(prev_out + pop_all(prev_ops) =~= postfix@ + pop_all(op_stack@));
        }
    }
    proof {
        assert(postfix@ + pop_all(op_stack@) =~= postfix@);
        assert(postfix@.skip(0) =~= postfix@);
    }
    let mut postfix_str = String::new();
    let mut j: usize = 0;
    while j < postfix.len()
        invariant
            j <= postfix@.len(),
            joined_with_spaces(postfix@) == postfix_str@ + joined_with_spaces(
                postfix@.skip(j as int),
            ),
        decreases postfix@.len() - j,
    {
        let ghost prev_str = postfix_str@;
        let c = postfix[j];
        push_char(&mut postfix_str, c);
        push_char(&mut postfix_str, ' ');
        proof {
            assert(postfix@.skip(j as int)[0] == c);
            assert(postfix@.skip(j as int).drop_first() =~= postfix@.skip(j + 1));
            assert(prev_str + (seq![c, ' '] + joined_with_spaces(postfix@.skip(j + 1)))
                =~= postfix_str@ + joined_with_spaces(postfix@.skip(j + 1)));
        }
        j = j + 1;
    }
    proof {
        assert(postfix@.skip(j as int) =~= Seq::<char>::empty());
        assert(postfix_str@ + joined_with_spaces(postfix@.skip(j as int)) =~= postfix_str@);
    }
    Ok(Some(postfix_str))
}

} // verus!
