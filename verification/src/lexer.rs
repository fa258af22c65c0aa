//! The scanner: a character-driven deterministic finite automaton.
//!
//! [`Lexer::next_token`] consumes characters from the decoded source,
//! one character of lookahead at a time, and produces the next token,
//! signals end of input, or reports a lexical fault through the error
//! reporter.  Its contract is stated against [`scan_spec`], a pure
//! recursive rendering of the automaton over the pending character
//! sequence.

use vstd::prelude::*;

use crate::error::{sat_inc, ErrorId, ErrorManager, LexerError};
use crate::source::{
    decoded_prefix, is_space, reader_chars, reader_fault, reader_new, reader_next, ws_char,
    CharReader, ReadChar,
};
use vstd::utf8::valid_utf8;

verus! {

/// The kind of a token.  Only `Number` carries a meaningful payload in
/// the `(TokenKind, u32)` pair that the scanner emits; the others carry
/// the sentinel `0`.
#[derive(Clone, Copy, Debug, PartialEq, Eq)]
pub enum TokenKind {
    Add,
    Subtract,
    Multiply,
    Divide,
    Number,
}

/// The automaton's state between two consumed characters.
#[derive(Clone, Copy)]
pub enum ScanSt {
    /// Between tokens.
    Initial,
    /// A `/` was consumed; a comment may follow, else it is a division.
    DivOrComment,
    /// Inside `// ...`, up to the next line terminator.
    LineComment,
    /// Inside `/* ... */`.
    BlockComment,
    /// Inside a block comment, right after a `*`.
    MaybeBlockEnd,
    /// Inside an integer literal.
    Num,
}

/// What one scan (one `next_token` call) does to the pending character
/// sequence: `used` counts the characters it consumes.
pub enum Scan {
    /// A token was recognized after consuming `used` characters.
    Tok { kind: TokenKind, val: u32, used: nat },
    /// The input was exhausted with no pending partial token.
    End,
    /// After `used` consumed characters, the character `c` begins no
    /// token; it is reported, then consumed, and if `then_fault` the
    /// read after it hits a decode fault, reported as well.
    Bad { c: char, used: nat, then_fault: bool },
    /// After `used` consumed characters the next read hit a decode
    /// fault, which is reported.
    Fault { used: nat },
}

/// True on the ten decimal digit characters.
pub open spec fn is_digit(c: char) -> bool {
    48 <= c as u32 && c as u32 <= 57
}

/// The numeric value of a decimal digit character.
pub open spec fn digit_val(c: char) -> u32
    recommends
        is_digit(c),
{
    (c as u32 - 48) as u32
}

/// One accumulation step of a literal: append a digit, wrapping modulo
/// 2^32.
pub open spec fn acc_next(acc: u32, d: u32) -> u32 {
    ((acc * 10 + d) % 0x1_0000_0000) as u32
}

/// Adds `k` to the consumed-character count of a scan outcome.
pub open spec fn bump(s: Scan, k: int) -> Scan
    recommends
        k >= 0,
{
    match s {
        Scan::Tok { kind, val, used } => Scan::Tok { kind, val, used: (used + k) as nat },
        Scan::End => Scan::End,
        Scan::Bad { c, used, then_fault } => Scan::Bad {
            c,
            used: (used + k) as nat,
            then_fault,
        },
        Scan::Fault { used } => Scan::Fault { used: (used + k) as nat },
    }
}

/// A single-character operator is emitted after its character was
/// consumed — unless that consuming read ran into a decode fault, which
/// preempts the token.
pub open spec fn emit_after(rest: Seq<char>, f: bool, kind: TokenKind, val: u32) -> Scan {
    if rest.len() == 0 && f {
        Scan::Fault { used: 1 }
    } else {
        Scan::Tok { kind, val, used: 1 }
    }
}

/// The automaton, as a pure function: started in state `st` with
/// accumulator `acc` over the pending characters `s`, where `f` says
/// whether a decode fault sits right after `s`, it decides the outcome
/// of one `next_token` call.
pub open spec fn scan_from(st: ScanSt, acc: u32, s: Seq<char>, f: bool) -> Scan
    decreases s.len(),
{
    if s.len() == 0 {
        if f {
            Scan::Fault { used: 0 }
        } else {
            match st {
                ScanSt::DivOrComment => Scan::Tok { kind: TokenKind::Divide, val: 0, used: 0 },
                ScanSt::Num => Scan::Tok { kind: TokenKind::Number, val: acc, used: 0 },
                _ => Scan::End,
            }
        }
    } else {
        let c = s[0];
        let rest = s.drop_first();
        match st {
            ScanSt::Initial => if c == '+' {
                emit_after(rest, f, TokenKind::Add, 0)
            } else if c == '-' {
                emit_after(rest, f, TokenKind::Subtract, 0)
            } else if c == '*' {
                emit_after(rest, f, TokenKind::Multiply, 0)
            } else if c == '/' {
                bump(scan_from(ScanSt::DivOrComment, acc, rest, f), 1)
            } else if is_digit(c) {
                bump(scan_from(ScanSt::Num, digit_val(c), rest, f), 1)
            } else if is_space(c) {
                bump(scan_from(ScanSt::Initial, acc, rest, f), 1)
            } else {
                Scan::Bad { c, used: 0, then_fault: rest.len() == 0 && f }
            },
            ScanSt::DivOrComment => if c == '/' {
                bump(scan_from(ScanSt::LineComment, acc, rest, f), 1)
            } else if c == '*' {
                bump(scan_from(ScanSt::BlockComment, acc, rest, f), 1)
            } else {
                Scan::Tok { kind: TokenKind::Divide, val: 0, used: 0 }
            },
            ScanSt::LineComment => if c == '\n' {
                bump(scan_from(ScanSt::Initial, acc, rest, f), 1)
            } else {
                bump(scan_from(ScanSt::LineComment, acc, rest, f), 1)
            },
            ScanSt::BlockComment => if c == '*' {
                bump(scan_from(ScanSt::MaybeBlockEnd, acc, rest, f), 1)
            } else {
                bump(scan_from(ScanSt::BlockComment, acc, rest, f), 1)
            },
            ScanSt::MaybeBlockEnd => if c == '/' {
                bump(scan_from(ScanSt::Initial, acc, rest, f), 1)
            } else if c == '*' {
                bump(scan_from(ScanSt::MaybeBlockEnd, acc, rest, f), 1)
            } else {
                bump(scan_from(ScanSt::BlockComment, acc, rest, f), 1)
            },
            ScanSt::Num => if is_digit(c) {
                bump(scan_from(ScanSt::Num, acc_next(acc, digit_val(c)), rest, f), 1)
            } else {
                Scan::Tok { kind: TokenKind::Number, val: acc, used: 0 }
            },
        }
    }
}

/// The outcome of one `next_token` call over the pending characters
/// `chars`, with a decode fault right after them iff `f`.
pub open spec fn scan_spec(chars: Seq<char>, f: bool) -> Scan {
    scan_from(ScanSt::Initial, 0, chars, f)
}

/// The position reached from `(line, col)` after consuming `c`: a line
/// terminator moves to the start of the next line, anything else moves
/// one column right.  Counters saturate instead of overflowing.
pub open spec fn adv1(line: u32, col: u32, c: char) -> (u32, u32) {
    if c == '\n' {
        (sat_inc(line), 1u32)
    } else {
        (line, sat_inc(col))
    }
}

/// The position reached from `(line, col)` after consuming all of `s`,
/// in order.
pub open spec fn adv(line: u32, col: u32, s: Seq<char>) -> (u32, u32)
    decreases s.len(),
{
    if s.len() == 0 {
        (line, col)
    } else {
        let p = adv1(line, col, s[0]);
        adv(p.0, p.1, s.drop_first())
    }
}

proof fn lemma_adv_snoc(line: u32, col: u32, s: Seq<char>, c: char)
    ensures
        adv(line, col, s.push(c)) == adv1(adv(line, col, s).0, adv(line, col, s).1, c),
    decreases s.len(),
{
    reveal_with_fuel(adv, 3);
    if s.len() == 0 {
        assert(s.push(c)[0] == c);
        assert(s.push(c).drop_first() =~= Seq::<char>::empty());
    } else {
        assert(s.push(c)[0] == s[0]);
        assert(s.push(c).drop_first() =~= s.drop_first().push(c));
        let p = adv1(line, col, s[0]);
        lemma_adv_snoc(p.0, p.1, s.drop_first(), c);
    }
}

proof fn lemma_step(orig: Seq<char>, k: int, l0: u32, c0: u32)
    requires
        0 <= k < orig.len(),
    ensures
        orig.skip(k).drop_first() == orig.skip(k + 1),
        orig.skip(k)[0] == orig[k],
        orig.skip(k).len() == orig.len() - k,
        orig.take(k + 1) == orig.take(k).push(orig[k]),
        adv(l0, c0, orig.take(k + 1)) == adv1(
            adv(l0, c0, orig.take(k)).0,
            adv(l0, c0, orig.take(k)).1,
            orig[k],
        ),
{
    assert(orig.skip(k).drop_first() =~= orig.skip(k + 1));
    assert(orig.take(k + 1) =~= orig.take(k).push(orig[k]));
    lemma_adv_snoc(l0, c0, orig.take(k), orig[k]);
}

proof fn lemma_bump_zero(s: Scan)
    ensures
        bump(s, 0) == s,
{
    match s {
        Scan::Tok { kind, val, used } => {
            assert((used + 0) as nat == used);
        },
        Scan::End => {},
        Scan::Bad { c, used, then_fault } => {
            assert((used + 0) as nat == used);
        },
        Scan::Fault { used } => {
            assert((used + 0) as nat == used);
        },
    }
}

proof fn lemma_bump_bump(s: Scan, a: int, b: int)
    requires
        a >= 0,
        b >= 0,
    ensures
        bump(bump(s, a), b) == bump(s, a + b),
{
    match s {
        Scan::Tok { kind, val, used } => {
            assert(((used + a) as nat + b) as nat == (used + (a + b)) as nat);
        },
        Scan::End => {},
        Scan::Bad { c, used, then_fault } => {
            assert(((used + a) as nat + b) as nat == (used + (a + b)) as nat);
        },
        Scan::Fault { used } => {
            assert(((used + a) as nat + b) as nat == (used + (a + b)) as nat);
        },
    }
}

/// Law: end of input is stable.  `next_token` returns `Ok(None)`
/// exactly when the scan outcome is `End`, and its contract then leaves
/// the pending characters empty with no fault behind them; the scan of
/// that state is `End` again, so every later call also returns
/// `Ok(None)` and records nothing.
pub proof fn lemma_end_is_stable()
    ensures
        scan_spec(Seq::<char>::empty(), false) == Scan::End,
{
}

/// Input that is nothing but whitespace and comments: possibly empty,
/// where each piece is a whitespace character, a line comment (running
/// to a line terminator or to the end of input), or a block comment
/// (terminated, or still open when the input ends).
pub open spec fn trivia(s: Seq<char>) -> bool
    decreases s.len(),
{
    if s.len() == 0 {
        true
    } else if is_space(s[0]) {
        trivia(s.drop_first())
    } else if s.len() >= 2 && s[0] == '/' && s[1] == '/' {
        line_comment_rest(s.skip(2))
    } else if s.len() >= 2 && s[0] == '/' && s[1] == '*' {
        block_rest(s.skip(2))
    } else {
        false
    }
}

/// The rest of a line comment: anything up to a line terminator (or to
/// the end of input), with trivia after it.
pub open spec fn line_comment_rest(s: Seq<char>) -> bool
    decreases s.len(),
{
    if s.len() == 0 {
        true
    } else if s[0] == '\n' {
        trivia(s.drop_first())
    } else {
        line_comment_rest(s.drop_first())
    }
}

/// The rest of a block comment: anything up to `*/` (or to the end of
/// input), with trivia after it.
pub open spec fn block_rest(s: Seq<char>) -> bool
    decreases s.len(),
{
    if s.len() == 0 {
        true
    } else if s[0] == '*' {
        maybe_end_rest(s.drop_first())
    } else {
        block_rest(s.drop_first())
    }
}

/// The rest of a block comment right after a `*`: a `/` closes it.
pub open spec fn maybe_end_rest(s: Seq<char>) -> bool
    decreases s.len(),
{
    if s.len() == 0 {
        true
    } else if s[0] == '/' {
        trivia(s.drop_first())
    } else if s[0] == '*' {
        maybe_end_rest(s.drop_first())
    } else {
        block_rest(s.drop_first())
    }
}

proof fn lemma_trivia_end(s: Seq<char>, acc: u32)
    requires
        trivia(s),
    ensures
        scan_from(ScanSt::Initial, acc, s, false) == Scan::End,
    decreases s.len(),
{
    reveal_with_fuel(scan_from, 4);
    if s.len() == 0 {
    } else if is_space(s[0]) {
        assert(s[0] != '+' && s[0] != '-' && s[0] != '*' && s[0] != '/');
        assert(!is_digit(s[0]));
        lemma_trivia_end(s.drop_first(), acc);
    } else if s.len() >= 2 && s[0] == '/' && s[1] == '/' {
        assert(s.drop_first()[0] == s[1]);
        assert(s.drop_first().drop_first() =~= s.skip(2));
        lemma_line_end(s.skip(2), acc);
    } else {
        assert(s.drop_first()[0] == s[1]);
        assert(s.drop_first().drop_first() =~= s.skip(2));
        lemma_block_end(s.skip(2), acc);
    }
}

proof fn lemma_line_end(s: Seq<char>, acc: u32)
    requires
        line_comment_rest(s),
    ensures
        scan_from(ScanSt::LineComment, acc, s, false) == Scan::End,
    decreases s.len(),
{
    if s.len() == 0 {
    } else if s[0] == '\n' {
        lemma_trivia_end(s.drop_first(), acc);
    } else {
        lemma_line_end(s.drop_first(), acc);
    }
}

proof fn lemma_block_end(s: Seq<char>, acc: u32)
    requires
        block_rest(s),
    ensures
        scan_from(ScanSt::BlockComment, acc, s, false) == Scan::End,
    decreases s.len(),
{
    if s.len() == 0 {
    } else if s[0] == '*' {
        lemma_maybe_end(s.drop_first(), acc);
    } else {
        lemma_block_end(s.drop_first(), acc);
    }
}

proof fn lemma_maybe_end(s: Seq<char>, acc: u32)
    requires
        maybe_end_rest(s),
    ensures
        scan_from(ScanSt::MaybeBlockEnd, acc, s, false) == Scan::End,
    decreases s.len(),
{
    if s.len() == 0 {
    } else if s[0] == '/' {
        lemma_trivia_end(s.drop_first(), acc);
    } else if s[0] == '*' {
        lemma_maybe_end(s.drop_first(), acc);
    } else {
        lemma_block_end(s.drop_first(), acc);
    }
}

/// Law: whitespace-only or comment-only input yields no token and no
/// error.  Its scan outcome is `End`, so by `next_token`'s contract a
/// single call returns `Ok(None)` and leaves the error records
/// unchanged.
pub proof fn lemma_trivia_scans_to_end(s: Seq<char>)
    requires
        trivia(s),
    ensures
        scan_spec(s, false) == Scan::End,
{
    lemma_trivia_end(s, 0);
}

/// The scanner: the decoded-character source, one character of
/// lookahead, and the in-progress numeric accumulator.
pub struct Lexer {
    reader: CharReader,
    next_char: Option<char>,
    num: u32,
}

impl Lexer {
    /// The characters not yet consumed: the lookahead, then whatever
    /// the source still holds.
    pub closed spec fn pending(self) -> Seq<char> {
        match self.next_char {
            Some(c) => seq![c] + reader_chars(self.reader),
            None => Seq::empty(),
        }
    }

    /// Whether a decode fault sits right after the pending characters.
    pub closed spec fn tail_fault(self) -> bool {
        self.next_char.is_some() && reader_fault(self.reader)
    }

    /// Creates a scanner over `input`.  Fails exactly when the very
    /// first character of `input` cannot be decoded.
    pub fn new(input: Vec<u8>) -> (r: Result<Lexer, LexerError>)
        ensures
            match r {
                Ok(lx) => {
                    &&& lx.pending() == decoded_prefix(input@)
                    &&& lx.tail_fault() == (!valid_utf8(input@) && decoded_prefix(input@).len()
                        > 0)
                },
                Err(e) => {
                    &&& e == LexerError::DecodeFault
                    &&& decoded_prefix(input@).len() == 0
                    &&& !valid_utf8(input@)
                },
            },
    {
        let ghost bytes = input@;
        let mut reader = reader_new(input);
        match reader_next(&mut reader) {
            ReadChar::Ch(c) => {
                proof {
                    assert(seq![c] + reader_chars(reader) =~= decoded_prefix(bytes));
                }
                Ok(Lexer { reader, next_char: Some(c), num: 0 })
            },
            ReadChar::End => Ok(Lexer { reader, next_char: None, num: 0 }),
            ReadChar::Fault => Err(LexerError::DecodeFault),
        }
    }

    /// Consumes the lookahead: advances the position, fetches the next
    /// lookahead, and on a decode fault records it and hands back its
    /// handle.
    fn read(&mut self, error_mgr: &mut ErrorManager) -> (r: Result<(), ErrorId>)
        requires
            old(self).next_char.is_some(),
        ensures
            final(self).num == old(self).num,
            ({
                let p = adv1(
                    old(error_mgr).line_spec(),
                    old(error_mgr).column_spec(),
                    old(self).pending()[0],
                );
                &&& final(error_mgr).line_spec() == p.0
                &&& final(error_mgr).column_spec() == p.1
            }),
            old(self).pending().len() > 1 ==> {
                &&& r == Ok::<(), ErrorId>(())
                &&& final(self).pending() == old(self).pending().drop_first()
                &&& final(self).tail_fault() == old(self).tail_fault()
                &&& final(error_mgr).records() == old(error_mgr).records()
            },
            old(self).pending().len() == 1 && !old(self).tail_fault() ==> {
                &&& r == Ok::<(), ErrorId>(())
                &&& final(self).pending().len() == 0
                &&& !final(self).tail_fault()
                &&& final(error_mgr).records() == old(error_mgr).records()
            },
            old(self).pending().len() == 1 && old(self).tail_fault() ==> {
                &&& (r matches Err(id) && id.index() == old(error_mgr).records().len())
                &&& final(self).pending().len() == 0
                &&& !final(self).tail_fault()
                &&& final(error_mgr).records() == old(error_mgr).records().push(
                    (
                        final(error_mgr).line_spec(),
                        final(error_mgr).column_spec(),
                        LexerError::DecodeFault,
                    ),
                )
            },
    {
        let c = self.next_char.unwrap();
        proof {
            assert(old(self).pending()[0] == c);
        }
        error_mgr.next_column();
        if c == '\n' {
            error_mgr.new_line();
        }
        match reader_next(&mut self.reader) {
            ReadChar::Ch(d) => {
                self.next_char = Some(d);
                proof {
                    assert(self.pending() =~= old(self).pending().drop_first());
                }
                Ok(())
            },
            ReadChar::End => {
                self.next_char = None;
                Ok(())
            },
            ReadChar::Fault => {
                self.next_char = None;
                let id = error_mgr.report_lexer_error(LexerError::DecodeFault);
                Err(id)
            },
        }
    }

    /// Produces the next token: `Ok(Some(token))` when one is
    /// recognized, `Ok(None)` when the input is exhausted with no
    /// pending partial token (then and on every later call), and
    /// `Err(handle)` when a character begins no token or the bytes
    /// ahead cannot be decoded — the fault is recorded at the position
    /// where it was met, and the handle points at the newest record.
    #[verifier::loop_isolation(false)]
    #[verifier::rlimit(60)]
    pub fn next_token(&mut self, error_mgr: &mut ErrorManager) -> (r: Result<
        Option<(TokenKind, u32)>,
        ErrorId,
    >)
        ensures
            ({
                let chars = old(self).pending();
                let f = old(self).tail_fault();
                let l0 = old(error_mgr).line_spec();
                let c0 = old(error_mgr).column_spec();
                let recs = old(error_mgr).records();
                match scan_spec(chars, f) {
                    Scan::Tok { kind, val, used } => {
                        &&& r == Ok::<Option<(TokenKind, u32)>, ErrorId>(Some((kind, val)))
                        &&& final(self).pending() == chars.skip(used as int)
                        &&& final(self).tail_fault() == (f && chars.skip(used as int).len() > 0)
                        &&& final(error_mgr).records() == recs
                        &&& final(error_mgr).line_spec() == adv(l0, c0, chars.take(used as int)).0
                        &&& final(error_mgr).column_spec() == adv(
                            l0,
                            c0,
                            chars.take(used as int),
                        ).1
                    },
                    Scan::End => {
                        &&& r == Ok::<Option<(TokenKind, u32)>, ErrorId>(None)
                        &&& final(self).pending().len() == 0
                        &&& !final(self).tail_fault()
                        &&& final(error_mgr).records() == recs
                        &&& final(error_mgr).line_spec() == adv(l0, c0, chars).0
                        &&& final(error_mgr).column_spec() == adv(l0, c0, chars).1
                    },
                    Scan::Bad { c, used, then_fault } => {
                        let p_err = adv(l0, c0, chars.take(used as int));
                        let p_after = adv(l0, c0, chars.take(used as int + 1));
                        &&& (r matches Err(id) && id.index() == recs.len() + (
                        if then_fault {
                            1int
                        } else {
                            0int
                        }))
                        &&& (!then_fault ==> {
                            &&& final(error_mgr).records() == recs.push(
                                (p_err.0, p_err.1, LexerError::UnexpectedChar(c)),
                            )
                            &&& final(self).pending() == chars.skip(used as int + 1)
                            &&& final(self).tail_fault() == (f && chars.skip(
                                used as int + 1,
                            ).len() > 0)
                        })
                        &&& (then_fault ==> {
                            &&& final(error_mgr).records() == recs.push(
                                (p_err.0, p_err.1, LexerError::UnexpectedChar(c)),
                            ).push((p_after.0, p_after.1, LexerError::DecodeFault))
                            &&& final(self).pending().len() == 0
                            &&& !final(self).tail_fault()
                        })
                        &&& final(error_mgr).line_spec() == p_after.0
                        &&& final(error_mgr).column_spec() == p_after.1
                    },
                    Scan::Fault { used } => {
                        let p = adv(l0, c0, chars.take(used as int));
                        &&& (r matches Err(id) && id.index() == recs.len())
                        &&& final(error_mgr).records() == recs.push(
                            (p.0, p.1, LexerError::DecodeFault),
                        )
                        &&& final(error_mgr).line_spec() == p.0
                        &&& final(error_mgr).column_spec() == p.1
                        &&& final(self).pending().len() == 0
                        &&& !final(self).tail_fault()
                    },
                }
            }),
    {
        self.num = 0;
        let ghost orig = self.pending();
        let ghost f = self.tail_fault();
        let ghost l0 = error_mgr.line_spec();
        let ghost c0 = error_mgr.column_spec();
        let ghost recs = error_mgr.records();
        let ghost goal = scan_spec(orig, f);
        let mut state = ScanSt::Initial;
        let ghost mut k: int = 0;
        proof {
            lemma_bump_zero(goal);
            assert(orig.skip(0) =~= orig);
            assert(orig.take(0) =~= Seq::<char>::empty());
        }
        loop
            invariant
                0 <= k <= orig.len(),
                self.pending() == orig.skip(k),
                self.tail_fault() == (f && orig.skip(k).len() > 0),
                k == orig.len() ==> !f,
                bump(scan_from(state, self.num, orig.skip(k), f), k) == goal,
                error_mgr.line_spec() == adv(l0, c0, orig.take(k)).0,
                error_mgr.column_spec() == adv(l0, c0, orig.take(k)).1,
                error_mgr.records() == recs,
            decreases orig.len() - k,
        {
            match self.next_char {
                Some(c) => {
                    proof {
                        assert(self.pending() == seq![c] + reader_chars(self.reader));
                        assert((seq![c] + reader_chars(self.reader))[0] == c);
                        assert(orig.skip(k).len() > 0);
                        assert(k < orig.len());
                        lemma_step(orig, k, l0, c0);
                        assert(orig[k] == c);
                    }
                    match state {
                        ScanSt::Initial => {
                            if c == '+' {
                                match self.read(error_mgr) {
                                    Ok(()) => {
                                        proof {
                                            assert(self.pending() =~= orig.skip(k + 1));
                                        }
                                        return Ok(Some((TokenKind::Add, 0)));
                                    },
                                    Err(id) => {
                                        return Err(id);
                                    },
                                }
                            } else if c == '-' {
                                match self.read(error_mgr) {
                                    Ok(()) => {
                                        proof {
                                            assert(self.pending() =~= orig.skip(k + 1));
                                        }
                                        return Ok(Some((TokenKind::Subtract, 0)));
                                    },
                                    Err(id) => {
                                        return Err(id);
                                    },
                                }
                            } else if c == '*' {
                                match self.read(error_mgr) {
                                    Ok(()) => {
                                        proof {
                                            assert(self.pending() =~= orig.skip(k + 1));
                                        }
                                        return Ok(Some((TokenKind::Multiply, 0)));
                                    },
                                    Err(id) => {
                                        return Err(id);
                                    },
                                }
                            } else if c == '/' {
                                match self.read(error_mgr) {
                                    Ok(()) => {
                                        state = ScanSt::DivOrComment;
                                        proof {
                                            lemma_bump_bump(
                                                scan_from(
                                                    ScanSt::DivOrComment,
                                                    self.num,
                                                    orig.skip(k + 1),
                                                    f,
                                                ),
                                                1,
                                                k,
                                            );
                                            assert(self.pending() =~= orig.skip(k + 1));
                                            k = k + 1;
                                        }
                                    },
                                    Err(id) => {
                                        return Err(id);
                                    },
                                }
                            } else if c as u32 >= 48 && c as u32 <= 57 {
                                self.num = c as u32 - 48;
                                proof {
                                    assert(is_digit(c));
                                    assert(self.num == digit_val(c));
                                }
                                match self.read(error_mgr) {
                                    Ok(()) => {
                                        state = ScanSt::Num;
                                        proof {
                                            lemma_bump_bump(
                                                scan_from(
                                                    ScanSt::Num,
                                                    self.num,
                                                    orig.skip(k + 1),
                                                    f,
                                                ),
                                                1,
                                                k,
                                            );
                                            assert(self.pending() =~= orig.skip(k + 1));
                                            k = k + 1;
                                        }
                                    },
                                    Err(id) => {
                                        return Err(id);
                                    },
                                }
                            } else if ws_char(c) {
                                match self.read(error_mgr) {
                                    Ok(()) => {
                                        proof {
                                            lemma_bump_bump(
                                                scan_from(
                                                    ScanSt::Initial,
                                                    self.num,
                                                    orig.skip(k + 1),
                                                    f,
                                                ),
                                                1,
                                                k,
                                            );
                                            assert(self.pending() =~= orig.skip(k + 1));
                                            k = k + 1;
                                        }
                                    },
                                    Err(id) => {
                                        return Err(id);
                                    },
                                }
                            } else {
                                let id = error_mgr.report_lexer_error(
                                    LexerError::UnexpectedChar(c),
                                );
                                match self.read(error_mgr) {
                                    Ok(()) => {
                                        proof {
                                            assert(self.pending() =~= orig.skip(k + 1));
                                        }
                                        return Err(id);
                                    },
                                    Err(id2) => {
                                        return Err(id2);
                                    },
                                }
                            }
                        },
                        ScanSt::DivOrComment => {
                            if c == '/' {
                                match self.read(error_mgr) {
                                    Ok(()) => {
                                        state = ScanSt::LineComment;
                                        proof {
                                            lemma_bump_bump(
                                                scan_from(
                                                    ScanSt::LineComment,
                                                    self.num,
                                                    orig.skip(k + 1),
                                                    f,
                                                ),
                                                1,
                                                k,
                                            );
                                            assert(self.pending() =~= orig.skip(k + 1));
                                            k = k + 1;
                                        }
                                    },
                                    Err(id) => {
                                        return Err(id);
                                    },
                                }
                            } else if c == '*' {
                                match self.read(error_mgr) {
                                    Ok(()) => {
                                        state = ScanSt::BlockComment;
                                        proof {
                                            lemma_bump_bump(
                                                scan_from(
                                                    ScanSt::BlockComment,
                                                    self.num,
                                                    orig.skip(k + 1),
                                                    f,
                                                ),
                                                1,
                                                k,
                                            );
                                            assert(self.pending() =~= orig.skip(k + 1));
                                            k = k + 1;
                                        }
                                    },
                                    Err(id) => {
                                        return Err(id);
                                    },
                                }
                            } else {
                                return Ok(Some((TokenKind::Divide, 0)));
                            }
                        },
                        ScanSt::LineComment => {
                            if c == '\n' {
                                match self.read(error_mgr) {
                                    Ok(()) => {
                                        state = ScanSt::Initial;
                                        proof {
                                            lemma_bump_bump(
                                                scan_from(
                                                    ScanSt::Initial,
                                                    self.num,
                                                    orig.skip(k + 1),
                                                    f,
                                                ),
                                                1,
                                                k,
                                            );
                                            assert(self.pending() =~= orig.skip(k + 1));
                                            k = k + 1;
                                        }
                                    },
                                    Err(id) => {
                                        return Err(id);
                                    },
                                }
                            } else {
                                match self.read(error_mgr) {
                                    Ok(()) => {
                                        proof {
                                            lemma_bump_bump(
                                                scan_from(
                                                    ScanSt::LineComment,
                                                    self.num,
                                                    orig.skip(k + 1),
                                                    f,
                                                ),
                                                1,
                                                k,
                                            );
                                            assert(self.pending() =~= orig.skip(k + 1));
                                            k = k + 1;
                                        }
                                    },
                                    Err(id) => {
                                        return Err(id);
                                    },
                                }
                            }
                        },
                        ScanSt::BlockComment => {
                            if c == '*' {
                                match self.read(error_mgr) {
                                    Ok(()) => {
                                        state = ScanSt::MaybeBlockEnd;
                                        proof {
                                            lemma_bump_bump(
                                                scan_from(
                                                    ScanSt::MaybeBlockEnd,
                                                    self.num,
                                                    orig.skip(k + 1),
                                                    f,
                                                ),
                                                1,
                                                k,
                                            );
                                            assert(self.pending() =~= orig.skip(k + 1));
                                            k = k + 1;
                                        }
                                    },
                                    Err(id) => {
                                        return Err(id);
                                    },
                                }
                            } else {
                                match self.read(error_mgr) {
                                    Ok(()) => {
                                        proof {
                                            lemma_bump_bump(
                                                scan_from(
                                                    ScanSt::BlockComment,
                                                    self.num,
                                                    orig.skip(k + 1),
                                                    f,
                                                ),
                                                1,
                                                k,
                                            );
                                            assert(self.pending() =~= orig.skip(k + 1));
                                            k = k + 1;
                                        }
                                    },
                                    Err(id) => {
                                        return Err(id);
                                    },
                                }
                            }
                        },
                        ScanSt::MaybeBlockEnd => {
                            if c == '/' {
                                match self.read(error_mgr) {
                                    Ok(()) => {
                                        state = ScanSt::Initial;
                                        proof {
                                            lemma_bump_bump(
                                                scan_from(
                                                    ScanSt::Initial,
                                                    self.num,
                                                    orig.skip(k + 1),
                                                    f,
                                                ),
                                                1,
                                                k,
                                            );
                                            assert(self.pending() =~= orig.skip(k + 1));
                                            k = k + 1;
                                        }
                                    },
                                    Err(id) => {
                                        return Err(id);
                                    },
                                }
                            } else if c == '*' {
                                match self.read(error_mgr) {
                                    Ok(()) => {
                                        proof {
                                            lemma_bump_bump(
                                                scan_from(
                                                    ScanSt::MaybeBlockEnd,
                                                    self.num,
                                                    orig.skip(k + 1),
                                                    f,
                                                ),
                                                1,
                                                k,
                                            );
                                            assert(self.pending() =~= orig.skip(k + 1));
                                            k = k + 1;
                                        }
                                    },
                                    Err(id) => {
                                        return Err(id);
                                    },
                                }
                            } else {
                                match self.read(error_mgr) {
                                    Ok(()) => {
                                        state = ScanSt::BlockComment;
                                        proof {
                                            lemma_bump_bump(
                                                scan_from(
                                                    ScanSt::BlockComment,
                                                    self.num,
                                                    orig.skip(k + 1),
                                                    f,
                                                ),
                                                1,
                                                k,
                                            );
                                            assert(self.pending() =~= orig.skip(k + 1));
                                            k = k + 1;
                                        }
                                    },
                                    Err(id) => {
                                        return Err(id);
                                    },
                                }
                            }
                        },
                        ScanSt::Num => {
                            if c as u32 >= 48 && c as u32 <= 57 {
                                let d: u32 = c as u32 - 48;
                                let ghost acc0 = self.num;
                                let wide: u64 = (self.num as u64) * 10 + (d as u64);
                                self.num = (wide % 0x1_0000_0000u64) as u32;
                                proof {
                                    assert(d == digit_val(c));
                                    assert(wide == acc0 * 10 + d);
                                    assert(wide % 0x1_0000_0000u64 < 0x1_0000_0000);
                                    assert(self.num == acc_next(acc0, digit_val(c)));
                                }
                                match self.read(error_mgr) {
                                    Ok(()) => {
                                        proof {
                                            lemma_bump_bump(
                                                scan_from(
                                                    ScanSt::Num,
                                                    self.num,
                                                    orig.skip(k + 1),
                                                    f,
                                                ),
                                                1,
                                                k,
                                            );
                                            assert(self.pending() =~= orig.skip(k + 1));
                                            k = k + 1;
                                        }
                                    },
                                    Err(id) => {
                                        return Err(id);
                                    },
                                }
                            } else {
                                return Ok(Some((TokenKind::Number, self.num)));
                            }
                        },
                    }
                },
                None => {
                    proof {
                        assert(orig.skip(k).len() == 0);
                        assert(k == orig.len());
                        assert(orig.take(k) =~= orig);
                        assert(!f);
                    }
                    match state {
                        ScanSt::DivOrComment => {
                            return Ok(Some((TokenKind::Divide, 0)));
                        },
                        ScanSt::Num => {
                            return Ok(Some((TokenKind::Number, self.num)));
                        },
                        _ => {
                            return Ok(None);
                        },
                    }
                },
            }
        }
    }
}

} // verus!
