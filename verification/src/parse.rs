//! Line-level parsing of the edge-list text format: a line is split on
//! whitespace into tokens, and a line of exactly two decimal tokens denotes an
//! edge. Lines are handled as raw bytes; multi-byte characters simply fall
//! into tokens that fail numeric parsing.

use vstd::prelude::*;

verus! {

/// Token-splitting whitespace: space, tab, line feed, vertical tab, form
/// feed, carriage return.
pub open spec fn is_ws(b: u8) -> bool {
    b == 32 || b == 9 || b == 10 || b == 11 || b == 12 || b == 13
}

/// An ASCII decimal digit.
pub open spec fn is_digit(b: u8) -> bool {
    48 <= b <= 57
}

/// The tokenizer state after reading a prefix of a line: the completed tokens
/// and the token still being read, if the prefix ended inside one.
pub struct LexState {
    pub toks: Seq<Seq<u8>>,
    pub cur: Option<Seq<u8>>,
}

pub open spec fn lex_init() -> LexState {
    LexState { toks: Seq::empty(), cur: None }
}

/// One byte of tokenization: whitespace completes the current token, any
/// other byte extends it (or starts one).
pub open spec fn lex_step(st: LexState, b: u8) -> LexState {
    if is_ws(b) {
        match st.cur {
            Some(t) => LexState { toks: st.toks.push(t), cur: None },
            None => st,
        }
    } else {
        match st.cur {
            Some(t) => LexState { toks: st.toks, cur: Some(t.push(b)) },
            None => LexState { toks: st.toks, cur: Some(seq![b]) },
        }
    }
}

pub open spec fn lex_fold(s: Seq<u8>) -> LexState
    decreases s.len(),
{
    if s.len() == 0 {
        lex_init()
    } else {
        lex_step(lex_fold(s.drop_last()), s.last())
    }
}

/// End of line: a token still in progress is completed.
pub open spec fn lex_finalize(st: LexState) -> Seq<Seq<u8>> {
    match st.cur {
        Some(t) => st.toks.push(t),
        None => st.toks,
    }
}

/// The whitespace-separated tokens of a line.
pub open spec fn tokens_of(s: Seq<u8>) -> Seq<Seq<u8>> {
    lex_finalize(lex_fold(s))
}

/// The value of a digit string read in decimal.
pub open spec fn num_val(t: Seq<u8>) -> int
    decreases t.len(),
{
    if t.len() == 0 {
        0
    } else {
        num_val(t.drop_last()) * 10 + (t.last() - 48)
    }
}

/// A token parses as a node id when it is a nonempty run of digits whose
/// value fits in `usize`; anything else is rejected.
pub open spec fn parse_tok(t: Seq<u8>) -> Option<usize> {
    if t.len() >= 1 && (forall|i: int| 0 <= i < t.len() ==> is_digit(#[trigger] t[i])) && num_val(
        t,
    ) <= usize::MAX {
        Some(num_val(t) as usize)
    } else {
        None
    }
}

/// What a line of the input denotes.
#[derive(Clone, Copy, Debug, PartialEq, Eq, Structural)]
pub enum LineClass {
    /// Exactly two tokens, both valid node ids.
    EdgeLine(usize, usize),
    /// A token count other than two: headers, comments, blank lines.
    Malformed,
    /// Two tokens, of which at least one fails numeric parsing.
    BadToken,
}

/// The classification of one line.
pub open spec fn line_class(s: Seq<u8>) -> LineClass {
    let ts = tokens_of(s);
    if ts.len() != 2 {
        LineClass::Malformed
    } else {
        match (parse_tok(ts[0]), parse_tok(ts[1])) {
            (Some(u), Some(v)) => LineClass::EdgeLine(u, v),
            _ => LineClass::BadToken,
        }
    }
}

/// Parses a token as a decimal node id, rejecting empty tokens, non-digit
/// bytes, and values over `usize::MAX`.
pub fn parse_node_id(t: &Vec<u8>) -> (r: Option<usize>)
    ensures
        r == parse_tok(t@),
{
    let len = t.len();
    if len == 0 {
        return None;
    }
    let mut val: usize = 0;
    let mut overflow = false;
    for i in 0..len
        invariant
            len == t@.len(),
            forall|j: int| 0 <= j < i ==> is_digit(#[trigger] t@[j]),
            !overflow ==> val == num_val(t@.take(i as int)),
            overflow ==> num_val(t@.take(i as int)) > usize::MAX,
    {
        let b = t[i];
        if b < 48 || b > 57 {
            return None;
        }
        let d = (b - 48) as usize;
        proof {
            assert(t@.take(i + 1).drop_last() =~= t@.take(i as int));
            assert(t@.take(i + 1).last() == t@[i as int]);
        }
        if overflow {
            proof {
                let prev = num_val(t@.take(i as int));
                assert(prev * 10 > prev) by (nonlinear_arith)
                    requires
                        prev > usize::MAX,
                ;
            }
        } else {
            match val.checked_mul(10) {
                Some(m) => match m.checked_add(d) {
                    Some(s) => {
                        val = s;
                    },
                    None => {
                        overflow = true;
                    },
                },
                None => {
                    overflow = true;
                },
            }
        }
    }
    proof {
        assert(t@.take(len as int) =~= t@);
    }
    if overflow {
        None
    } else {
        Some(val)
    }
}

/// Whether a byte is token-splitting whitespace.
fn byte_is_ws(b: u8) -> (r: bool)
    ensures
        r == is_ws(b),
{
    b == 32 || b == 9 || b == 10 || b == 11 || b == 12 || b == 13
}

/// Classifies one line of input: an edge, a malformed (skippable) line, or a
/// two-token line with an unparsable token.
pub fn classify_line(line: &Vec<u8>) -> (r: LineClass)
    ensures
        r == line_class(line@),
{
    let len = line.len();
    let mut ntoks: usize = 0;
    let mut t0: Vec<u8> = Vec::new();
    let mut t1: Vec<u8> = Vec::new();
    let mut cur: Vec<u8> = Vec::new();
    let mut incur = false;
    proof {
        assert(line@.take(0) =~= Seq::<u8>::empty());
    }
    for i in 0..len
        invariant
            len == line@.len(),
            ntoks == lex_fold(line@.take(i as int)).toks.len(),
            ntoks <= i,
            incur ==> ntoks < i,
            incur == lex_fold(line@.take(i as int)).cur is Some,
            incur ==> cur@ == lex_fold(line@.take(i as int)).cur.unwrap(),
            !incur ==> cur@ == Seq::<u8>::empty(),
            ntoks >= 1 ==> t0@ == lex_fold(line@.take(i as int)).toks[0],
            ntoks >= 2 ==> t1@ == lex_fold(line@.take(i as int)).toks[1],
    {
        let ghost st = lex_fold(line@.take(i as int));
        proof {
            assert(line@.take(i + 1).drop_last() =~= line@.take(i as int));
            assert(line@.take(i + 1).last() == line@[i as int]);
        }
        let b = line[i];
        if byte_is_ws(b) {
            if incur {
                if ntoks == 0 {
                    t0 = cur;
                } else if ntoks == 1 {
                    t1 = cur;
                }
                cur = Vec::new();
                incur = false;
                ntoks += 1;
            }
        } else {
            cur.push(b);
            incur = true;
        }
    }
    proof {
        assert(line@.take(len as int) =~= line@);
    }
    if incur {
        if ntoks == 0 {
            t0 = cur;
        } else if ntoks == 1 {
            t1 = cur;
        }
        ntoks += 1;
    }
    proof {
        assert(ntoks == tokens_of(line@).len());
        assert(ntoks >= 1 ==> t0@ == tokens_of(line@)[0]);
        assert(ntoks >= 2 ==> t1@ == tokens_of(line@)[1]);
    }
    if ntoks != 2 {
        return LineClass::Malformed;
    }
    match (parse_node_id(&t0), parse_node_id(&t1)) {
        (Some(u), Some(v)) => LineClass::EdgeLine(u, v),
        _ => LineClass::BadToken,
    }
}

} // verus!
