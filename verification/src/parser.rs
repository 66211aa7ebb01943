//! Translation of source text into a program with resolved branch targets.
//!
//! The scanner walks the source character by character. Six characters map
//! directly to instructions; `[` and `]` become forward and backward jumps
//! whose targets are resolved with an explicit stack of open brackets, and
//! every other character is a comment. An unmatched `]` aborts the scan with
//! a single diagnostic; unmatched `[`s are all reported once the scan ends.

use crate::{
    branch_targets_ok, is_close, is_open, lemma_push_non_close_targets,
    lemma_scan_stack_directions, lemma_scan_stack_entries, scan_stack, well_formed, Direction,
    Instruction,
};
use vstd::prelude::*;

verus! {

/// Source position of the character being scanned: the current 0-based line
/// and the index in the source at which that line starts.
#[derive(Clone, Copy, Debug, PartialEq, Eq, Structural)]
pub struct ParsePosition {
    pub line: usize,
    pub line_start: usize,
}

impl ParsePosition {
    /// The position of the first character of the source.
    pub fn new() -> (r: ParsePosition)
        ensures
            r.line == 0,
            r.line_start == 0,
    {
        ParsePosition { line: 0, line_start: 0 }
    }
}

/// A still-open `[`: where its placeholder jump sits in the output, and where
/// the bracket itself sits in the source.
pub ghost struct ParseFrame {
    pub open_index: int,
    pub char_index: int,
    pub line: int,
    pub line_start: int,
}

/// The scanner's state between two characters.
pub ghost struct ParseState {
    pub out: Seq<Instruction>,
    pub stack: Seq<ParseFrame>,
    pub line: int,
    pub line_start: int,
}

/// The scanner's state before any character has been read.
pub open spec fn parse_init() -> ParseState {
    ParseState { out: Seq::empty(), stack: Seq::empty(), line: 0, line_start: 0 }
}

/// Effect of one source character at index `i` on the scanner's state.
/// `Err((line, col))` reports a `]` with no matching `[`.
pub open spec fn parse_step(st: ParseState, c: char, i: int) -> Result<ParseState, (int, int)> {
    if c == '<' {
        Ok(ParseState { out: st.out.push(Instruction::AddPointer(-1isize)), ..st })
    } else if c == '>' {
        Ok(ParseState { out: st.out.push(Instruction::AddPointer(1isize)), ..st })
    } else if c == '+' {
        Ok(ParseState { out: st.out.push(Instruction::AddData(1i8)), ..st })
    } else if c == '-' {
        Ok(ParseState { out: st.out.push(Instruction::AddData(-1i8)), ..st })
    } else if c == ',' {
        Ok(ParseState { out: st.out.push(Instruction::Input), ..st })
    } else if c == '.' {
        Ok(ParseState { out: st.out.push(Instruction::Output), ..st })
    } else if c == '[' {
        Ok(ParseState {
            out: st.out.push(Instruction::Jump { index: 0, direction: Direction::Forward }),
            stack: st.stack.push(
                ParseFrame {
                    open_index: st.out.len() as int,
                    char_index: i,
                    line: st.line,
                    line_start: st.line_start,
                },
            ),
            ..st
        })
    } else if c == ']' {
        if st.stack.len() == 0 {
            Err((st.line, i - st.line_start))
        } else {
            Ok(ParseState {
                out: crate::close_step(st.out, st.stack.last().open_index),
                stack: st.stack.drop_last(),
                ..st
            })
        }
    } else if c == '\n' {
        Ok(ParseState { line: st.line + 1, line_start: i, ..st })
    } else {
        Ok(st)
    }
}

/// The scanner's state after the first `n` characters of `s`, or the
/// position of the first unmatched `]`.
pub open spec fn parse_chars(s: Seq<char>, n: int) -> Result<ParseState, (int, int)>
    decreases n,
{
    if n <= 0 {
        Ok(parse_init())
    } else {
        match parse_chars(s, n - 1) {
            Ok(st) => parse_step(st, s[n - 1], n - 1),
            Err(e) => Err(e),
        }
    }
}

/// True when the whole source scans without error and no `[` is left open.
pub open spec fn parse_ok(s: Seq<char>) -> bool {
    match parse_chars(s, s.len() as int) {
        Ok(st) => st.stack.len() == 0,
        Err(_) => false,
    }
}

/// The program a successful parse of `s` produces.
pub open spec fn parse_output(s: Seq<char>) -> Seq<Instruction> {
    match parse_chars(s, s.len() as int) {
        Ok(st) => st.out,
        Err(_) => Seq::empty(),
    }
}

/// The decimal digits of `n`, most significant first.
pub open spec fn dec_digits(n: int) -> Seq<char>
    decreases n,
{
    if n < 10 {
        seq![digit_char(n)]
    } else {
        dec_digits(n / 10).push(digit_char(n % 10))
    }
}

/// The character for one decimal digit.
pub open spec fn digit_char(d: int) -> char {
    if d == 0 {
        '0'
    } else if d == 1 {
        '1'
    } else if d == 2 {
        '2'
    } else if d == 3 {
        '3'
    } else if d == 4 {
        '4'
    } else if d == 5 {
        '5'
    } else if d == 6 {
        '6'
    } else if d == 7 {
        '7'
    } else if d == 8 {
        '8'
    } else {
        '9'
    }
}

/// Diagnostic for a `[` that is never closed.
pub open spec fn unmatched_open_msg(line: int, col: int) -> Seq<char> {
    "'[' at line "@ + dec_digits(line) + ", col "@ + dec_digits(col)
        + " has no matching ']'."@
}

/// Diagnostic for a `]` that closes nothing.
pub open spec fn unmatched_close_msg(line: int, col: int) -> Seq<char> {
    "']' at line "@ + dec_digits(line) + ", col "@ + dec_digits(col)
        + " has no matching '['."@
}

/// The diagnostics a failed parse of `s` produces: a single message for an
/// unmatched `]`, or one message per unmatched `[` in stack-pop order.
pub open spec fn parse_errors(s: Seq<char>) -> Seq<Seq<char>> {
    match parse_chars(s, s.len() as int) {
        Err(e) => seq![unmatched_close_msg(e.0, e.1)],
        Ok(st) => Seq::new(
            st.stack.len(),
            |k: int|
                {
                    let fr = st.stack[st.stack.len() - 1 - k];
                    unmatched_open_msg(fr.line, fr.char_index - fr.line_start)
                },
        ),
    }
}

/// The output positions of the still-open brackets, innermost last.
pub open spec fn frame_positions(stack: Seq<ParseFrame>) -> Seq<int> {
    Seq::new(stack.len(), |k: int| stack[k].open_index)
}

/// What the scanner guarantees of every intermediate state: the open-bracket
/// stack mirrors the branch scan of the output, every matched pair already
/// carries its final targets, and all recorded source positions are sane.
pub open spec fn parse_state_inv(st: ParseState, n: int) -> bool {
    &&& st.out.len() <= n
    &&& scan_stack(st.out, st.out.len() as int) == Some(frame_positions(st.stack))
    &&& branch_targets_ok(st.out)
    &&& forall|k: int|
        0 <= k < st.stack.len() ==> {
            let fr = #[trigger] st.stack[k];
            0 <= fr.line_start <= fr.char_index < n && 0 <= fr.line
        }
    &&& 0 <= st.line_start <= n
    &&& 0 <= st.line <= n
}

/// A successful scan of a prefix always satisfies [`parse_state_inv`].
pub proof fn lemma_parse_chars_inv(s: Seq<char>, n: int, st: ParseState)
    requires
        0 <= n <= s.len(),
        n <= usize::MAX,
        parse_chars(s, n) == Ok::<ParseState, (int, int)>(st),
    ensures
        parse_state_inv(st, n),
    decreases n,
{
    if n == 0 {
        assert(scan_stack(st.out, 0) == Some(Seq::<int>::empty()));
        assert(frame_positions(st.stack) =~= Seq::<int>::empty());
    } else {
        let prev = parse_chars(s, n - 1)->Ok_0;
        lemma_parse_chars_inv(s, n - 1, prev);
        let c = s[n - 1];
        let p = prev.out;
        let len = p.len() as int;
        lemma_scan_stack_entries(p, len, frame_positions(prev.stack));
        if c == '<' || c == '>' || c == '+' || c == '-' || c == ',' || c == '.' {
            let q = st.out;
            assert(q == p.push(q.last()));
            assert(!is_open(q.last()) && !is_close(q.last()));
            lemma_scan_stack_directions(p, q, len);
            assert(scan_stack(q, len + 1) == Some(frame_positions(st.stack)));
            lemma_push_non_close_targets(p, q.last());
        } else if c == '[' {
            let q = st.out;
            assert(q == p.push(Instruction::Jump { index: 0, direction: Direction::Forward }));
            lemma_scan_stack_directions(p, q, len);
            assert(scan_stack(q, len + 1)
                == Some(frame_positions(prev.stack).push(len)));
            assert(frame_positions(st.stack) =~= frame_positions(prev.stack).push(len));
            lemma_push_non_close_targets(
                p,
                Instruction::Jump { index: 0, direction: Direction::Forward },
            );
        } else if c == ']' {
            assert(prev.stack.len() > 0);
            let positions = frame_positions(prev.stack);
            assert(positions[positions.len() - 1] == prev.stack.last().open_index);
            assert(st.out == crate::close_step(p, positions.last()));
            crate::lemma_close_step_wf(p, positions);
            assert(frame_positions(st.stack) =~= positions.drop_last());
        } else {
            assert(st.out == p);
            assert(st.stack == prev.stack);
        }
    }
}

/// Once the scan fails it stays failed, with the same diagnostic.
pub proof fn lemma_parse_chars_err_stable(s: Seq<char>, n: int, m: int)
    requires
        0 <= n <= m,
        parse_chars(s, n) is Err,
    ensures
        parse_chars(s, m) == parse_chars(s, n),
    decreases m - n,
{
    if n < m {
        lemma_parse_chars_err_stable(s, n, m - 1);
    }
}

/// Bracket round-trip: a parse that succeeds yields a well-formed program —
/// every forward branch targets the index one past its matching backward
/// branch and vice versa.
pub proof fn lemma_parse_ok_well_formed(s: Seq<char>)
    requires
        s.len() <= usize::MAX,
        parse_ok(s),
    ensures
        well_formed(parse_output(s)),
{
    let st = parse_chars(s, s.len() as int)->Ok_0;
    lemma_parse_chars_inv(s, s.len() as int, st);
    assert(frame_positions(st.stack) =~= Seq::<int>::empty());
}

/// Lists the characters of a source text in order.
///
/// Relies on `str::chars` (through `Iterator::collect`): the characters of
/// the string, in order, as `str`'s view in vstd defines them.
#[verifier::external_body]
fn chars_of(s: &str) -> (v: Vec<char>)
    ensures
        v@ == s@,
{
    s.chars().collect()
}

/// Writes the decimal digits of `n` onto the end of `s`.
fn push_decimal(s: &mut String, n: usize)
    ensures
        final(s)@ == old(s)@ + dec_digits(n as int),
    decreases n,
{
    if n >= 10 {
        push_decimal(s, n / 10);
    }
    let d = n % 10;
    let ds: &str = if d == 0 {
        "0"
    } else if d == 1 {
        "1"
    } else if d == 2 {
        "2"
    } else if d == 3 {
        "3"
    } else if d == 4 {
        "4"
    } else if d == 5 {
        "5"
    } else if d == 6 {
        "6"
    } else if d == 7 {
        "7"
    } else if d == 8 {
        "8"
    } else {
        "9"
    };
    proof {
        reveal_strlit("0");
        reveal_strlit("1");
        reveal_strlit("2");
        reveal_strlit("3");
        reveal_strlit("4");
        reveal_strlit("5");
        reveal_strlit("6");
        reveal_strlit("7");
        reveal_strlit("8");
        reveal_strlit("9");
        assert(ds@ =~= seq![digit_char(d as int)]);
        if n < 10 {
            assert(dec_digits(n as int) == seq![digit_char(n as int)]);
        }
    }
    s.append(ds);
    proof {
        assert(final(s)@ =~= old(s)@ + dec_digits(n as int));
    }
}

/// Renders the diagnostic for a `[` that is never closed.
fn unmatched_open_message(line: usize, col: usize) -> (r: String)
    ensures
        r@ == unmatched_open_msg(line as int, col as int),
{
    let mut s = String::from_str("'[' at line ");
    push_decimal(&mut s, line);
    s.append(", col ");
    push_decimal(&mut s, col);
    s.append(" has no matching ']'.");
    proof {
        assert(s@ =~= unmatched_open_msg(line as int, col as int));
    }
    s
}

/// Renders the diagnostic for a `]` that closes nothing.
fn unmatched_close_message(line: usize, col: usize) -> (r: String)
    ensures
        r@ == unmatched_close_msg(line as int, col as int),
{
    let mut s = String::from_str("']' at line ");
    push_decimal(&mut s, line);
    s.append(", col ");
    push_decimal(&mut s, col);
    s.append(" has no matching '['.");
    proof {
        assert(s@ =~= unmatched_close_msg(line as int, col as int));
    }
    s
}

/// Relates the scanner's concrete state to the ghost state after `i`
/// characters.
pub open spec fn loop_state_ok(
    s: Seq<char>,
    i: int,
    out: Seq<Instruction>,
    stack: Seq<(usize, usize, ParsePosition)>,
    pos: ParsePosition,
) -> bool {
    match parse_chars(s, i) {
        Ok(st) => {
            &&& st.out == out
            &&& st.line == pos.line as int
            &&& st.line_start == pos.line_start as int
            &&& st.stack.len() == stack.len()
            &&& forall|k: int|
                0 <= k < stack.len() ==> {
                    let fr = st.stack[k];
                    let e = #[trigger] stack[k];
                    &&& fr.open_index == e.0 as int
                    &&& fr.char_index == e.1 as int
                    &&& fr.line == e.2.line as int
                    &&& fr.line_start == e.2.line_start as int
                }
        },
        Err(_) => false,
    }
}

/// Scans `program` into an instruction sequence with resolved branch
/// targets, or reports every bracket that fails to match.
///
/// On success the result is exactly the scan of the source and is
/// well-formed; on failure the diagnostics are exactly those of the scan:
/// one message for the first unmatched `]`, or one per unmatched `[` in
/// stack-pop order.
pub fn parse(program: &str) -> (r: Result<Vec<Instruction>, Vec<String>>)
    ensures
        r is Ok <==> parse_ok(program@),
        r matches Ok(prog) ==> prog@ == parse_output(program@) && well_formed(prog@),
        r matches Err(errs) ==> {
            &&& errs@.len() == parse_errors(program@).len() > 0
            &&& forall|k: int|
                0 <= k < errs@.len() ==> (#[trigger] errs@[k])@ == parse_errors(program@)[k]
        },
{
    let chars = chars_of(program);
    let ghost s = program@;
    let n = chars.len();
    let mut instructions: Vec<Instruction> = Vec::new();
    let mut jump_stack: Vec<(usize, usize, ParsePosition)> = Vec::new();
    let mut parse_position = ParsePosition::new();
    let mut i: usize = 0;
    while i < n
        invariant
            chars@ == s,
            s == program@,
            n == s.len(),
            i <= n,
            loop_state_ok(s, i as int, instructions@, jump_stack@, parse_position),
            parse_position.line_start <= i,
            parse_position.line <= i,
            instructions@.len() <= i,
            forall|k: int|
                0 <= k < jump_stack@.len() ==> {
                    let e = #[trigger] jump_stack@[k];
                    e.2.line_start <= e.1 < i && e.0 < instructions@.len()
                },
        decreases n - i,
    {
        let ghost st = parse_chars(s, i as int)->Ok_0;
        proof {
            lemma_parse_chars_inv(s, i as int, st);
        }
        let c = chars[i];
        assert(parse_chars(s, i + 1) == parse_step(st, s[i as int], i as int));
        if c == '<' {
            instructions.push(Instruction::AddPointer(-1));
        } else if c == '>' {
            instructions.push(Instruction::AddPointer(1));
        } else if c == '+' {
            instructions.push(Instruction::AddData(1));
        } else if c == '-' {
            instructions.push(Instruction::AddData(-1));
        } else if c == ',' {
            instructions.push(Instruction::Input);
        } else if c == '.' {
            instructions.push(Instruction::Output);
        } else if c == '[' {
            let index = instructions.len();
            instructions.push(Instruction::Jump { index: 0, direction: Direction::Forward });
            jump_stack.push((index, i, parse_position));
        } else if c == ']' {
            if jump_stack.len() > 0 {
                let top = jump_stack.pop().unwrap();
                let target_index = top.0;
                instructions.push(
                    Instruction::Jump { index: target_index + 1, direction: Direction::Backward },
                );
                let current_index = instructions.len();
                instructions.set(
                    target_index,
                    Instruction::Jump { index: current_index, direction: Direction::Forward },
                );
            } else {
                let col = i - parse_position.line_start;
                let msg = unmatched_close_message(parse_position.line, col);
                let mut errors: Vec<String> = Vec::new();
                errors.push(msg);
                proof {
                    lemma_parse_chars_err_stable(s, i + 1, s.len() as int);
                    assert(errors@[0]@ == parse_errors(s)[0]);
                }
                return Err(errors);
            }
        } else if c == '\n' {
            parse_position.line = parse_position.line + 1;
            parse_position.line_start = i;
        }
        i = i + 1;
    }
    let ghost st = parse_chars(s, s.len() as int)->Ok_0;
    proof {
        lemma_parse_chars_inv(s, s.len() as int, st);
    }
    if jump_stack.len() == 0 {
        proof {
            lemma_parse_ok_well_formed(s);
        }
        Ok(instructions)
    } else {
        let ghost total = st.stack.len();
        let mut errors: Vec<String> = Vec::new();
        while jump_stack.len() > 0
            invariant
                parse_chars(s, s.len() as int) == Ok::<ParseState, (int, int)>(st),
                st.stack.len() == total,
                errors@.len() + jump_stack@.len() == total,
                forall|k: int|
                    0 <= k < jump_stack@.len() ==> {
                        let fr = st.stack[k];
                        let e = #[trigger] jump_stack@[k];
                        &&& fr.char_index == e.1 as int
                        &&& fr.line == e.2.line as int
                        &&& fr.line_start == e.2.line_start as int
                        &&& e.2.line_start <= e.1
                    },
                forall|k: int|
                    0 <= k < errors@.len() ==> (#[trigger] errors@[k])@ == parse_errors(s)[k],
            decreases jump_stack@.len(),
        {
            let top = jump_stack.pop().unwrap();
            let col = top.1 - top.2.line_start;
            let msg = unmatched_open_message(top.2.line, col);
            proof {
                let k = errors@.len() as int;
                let fr = st.stack[total - 1 - k];
                assert(msg@ == unmatched_open_msg(fr.line, fr.char_index - fr.line_start));
                assert(msg@ == parse_errors(s)[k]);
            }
            errors.push(msg);
        }
        assert(errors@.len() == parse_errors(s).len());
        Err(errors)
    }
}

} // verus!
