//! Line-oriented input cursor.
//!
//! The surrounding program does the actual reading and hands the cursor the
//! lines it consumed, each already stripped of its line terminator; the
//! cursor does the compute half — walking the lines, splitting one into
//! whitespace-separated decimal numbers, and parsing them.

use vstd::prelude::*;
use vstd::slice::slice_to_vec;
use vstd::utf8::encode_utf8;

verus! {

/// ASCII whitespace as the tokenizer understands it: space, tab, carriage
/// return, line feed.
pub open spec fn is_ws(b: u8) -> bool {
    b == 32 || b == 9 || b == 13 || b == 10
}

/// An ASCII decimal digit.
pub open spec fn is_digit(b: u8) -> bool {
    48 <= b <= 57
}

/// First position at or after `i` holding a non-whitespace byte, or the end.
pub open spec fn skip_ws_idx(s: Seq<u8>, i: int) -> int
    decreases s.len() - i,
{
    if i < 0 || i >= s.len() {
        i
    } else if is_ws(s[i]) {
        skip_ws_idx(s, i + 1)
    } else {
        i
    }
}

/// First position at or after `i` holding a whitespace byte, or the end.
pub open spec fn token_end(s: Seq<u8>, i: int) -> int
    decreases s.len() - i,
{
    if i < 0 || i >= s.len() {
        i
    } else if is_ws(s[i]) {
        i
    } else {
        token_end(s, i + 1)
    }
}

/// Value of a string of decimal digits, most significant first.
pub open spec fn dec_value(s: Seq<u8>) -> int
    decreases s.len(),
{
    if s.len() == 0 {
        0
    } else {
        dec_value(s.drop_last()) * 10 + (s.last() - 48)
    }
}

/// A digit string's value is non-negative.
pub proof fn lemma_dec_nonneg(s: Seq<u8>)
    requires
        forall|k: int| 0 <= k < s.len() ==> is_digit(#[trigger] s[k]),
    ensures
        dec_value(s) >= 0,
    decreases s.len(),
{
    if s.len() > 0 {
        assert(forall|k: int| 0 <= k < s.drop_last().len() ==> #[trigger] s.drop_last()[k] == s[k]);
        lemma_dec_nonneg(s.drop_last());
    }
}

/// Reading more digits never shrinks the value: the value of a prefix of a
/// digit run is at most the value of the whole run.
pub proof fn lemma_dec_mono(s: Seq<u8>, st: int, i: int, en: int)
    requires
        0 <= st <= i <= en <= s.len(),
        forall|k: int| st <= k < en ==> is_digit(#[trigger] s[k]),
    ensures
        0 <= dec_value(s.subrange(st, i)) <= dec_value(s.subrange(st, en)),
    decreases en - i,
{
    assert(forall|k: int|
        0 <= k < s.subrange(st, i).len() ==> is_digit(#[trigger] s.subrange(st, i)[k]));
    lemma_dec_nonneg(s.subrange(st, i));
    if i < en {
        assert(s.subrange(st, i + 1).drop_last() =~= s.subrange(st, i));
        assert(s.subrange(st, i + 1).last() == s[i]);
        assert(dec_value(s.subrange(st, i + 1)) == dec_value(s.subrange(st, i)) * 10 + (s[i]
            - 48));
        lemma_dec_mono(s, st, i + 1, en);
    }
}


/// The whitespace scan never moves backwards nor past the end.
pub proof fn lemma_skip_ws_bounds(s: Seq<u8>, i: int)
    requires
        0 <= i <= s.len(),
    ensures
        i <= skip_ws_idx(s, i) <= s.len(),
    decreases s.len() - i,
{
    if i < s.len() && is_ws(s[i]) {
        lemma_skip_ws_bounds(s, i + 1);
    }
}

/// The token scan never moves backwards nor past the end, and it stops at
/// the end or on a whitespace byte.
pub proof fn lemma_token_end_bounds(s: Seq<u8>, i: int)
    requires
        0 <= i <= s.len(),
    ensures
        i <= token_end(s, i) <= s.len(),
        token_end(s, i) == s.len() || is_ws(s[token_end(s, i)]),
    decreases s.len() - i,
{
    if i < s.len() && !is_ws(s[i]) {
        lemma_token_end_bounds(s, i + 1);
    }
}

/// Whether, from position `i`, the bytes hold a well-formed number: after
/// optional whitespace a non-empty digit run whose value fits in `usize`.
pub open spec fn has_num(s: Seq<u8>, i: int) -> bool {
    let st = skip_ws_idx(s, i);
    let en = token_end(s, st);
    &&& 0 <= i <= s.len()
    &&& st < s.len()
    &&& en > st
    &&& forall|k: int| st <= k < en ==> is_digit(#[trigger] s[k])
    &&& dec_value(s.subrange(st, en)) <= usize::MAX
}

/// The number found at position `i`.
pub open spec fn num_at(s: Seq<u8>, i: int) -> int {
    dec_value(s.subrange(skip_ws_idx(s, i), token_end(s, skip_ws_idx(s, i))))
}

/// The position right after the number found at position `i`.
pub open spec fn next_pos(s: Seq<u8>, i: int) -> int {
    token_end(s, skip_ws_idx(s, i))
}

/// One line of input, split on demand into whitespace-separated numbers.
pub struct Line {
    pub bytes: Vec<u8>,
    pub at: usize,
}

impl Line {
    /// Parse the next whitespace-separated decimal number of the line.
    pub fn next(&mut self) -> (r: usize)
        requires
            has_num(old(self).bytes@, old(self).at as int),
        ensures
            final(self).bytes == old(self).bytes,
            r == num_at(old(self).bytes@, old(self).at as int),
            final(self).at == next_pos(old(self).bytes@, old(self).at as int),
    {
        let ghost s = self.bytes@;
        let ghost st0 = skip_ws_idx(s, self.at as int);
        let ghost en = token_end(s, st0);
        proof {
            lemma_skip_ws_bounds(s, self.at as int);
            lemma_token_end_bounds(s, st0);
        }
        let n = self.bytes.len();
        while self.at < n
            invariant
                n == s.len(),
                0 <= self.at as int <= s.len(),
                self.bytes == old(self).bytes,
                self.bytes@ == s,
                skip_ws_idx(s, self.at as int) == st0,
            ensures
                self.bytes == old(self).bytes,
                self.bytes@ == s,
                self.at as int == st0,
            decreases s.len() - self.at,
        {
            let b = self.bytes[self.at];
            if !(b == 32 || b == 9 || b == 13 || b == 10) {
                proof {
                    assert(skip_ws_idx(s, self.at as int) == self.at as int);
                }
                break ;
            }
            self.at = self.at + 1;
        }
        let mut val: usize = 0;
        while self.at < n
            invariant
                n == s.len(),
                0 <= st0 <= self.at as int <= en <= s.len(),
                en == token_end(s, st0),
                forall|k: int| st0 <= k < en ==> is_digit(#[trigger] s[k]),
                dec_value(s.subrange(st0, en)) <= usize::MAX,
                self.bytes == old(self).bytes,
                self.bytes@ == s,
                val == dec_value(s.subrange(st0, self.at as int)),
            ensures
                self.bytes == old(self).bytes,
                self.bytes@ == s,
                self.at as int == en,
                val == dec_value(s.subrange(st0, en)),
            decreases s.len() - self.at,
        {
            let b = self.bytes[self.at];
            if !(48 <= b && b <= 57) {
                proof {
                    assert(self.at as int == en) by {
                        if (self.at as int) < en {
                            assert(is_digit(s[self.at as int]));
                        }
                    }
                }
                break ;
            }
            proof {
                assert(is_digit(s[self.at as int]));
                assert((self.at as int) < en) by {
                    if self.at as int == en {
                        lemma_token_end_bounds(s, st0);
                        assert(is_ws(s[en]) || en == s.len());
                    }
                }
                assert(s.subrange(st0, self.at as int + 1).drop_last() =~= s.subrange(
                    st0,
                    self.at as int,
                ));
                assert(s.subrange(st0, self.at as int + 1).last() == s[self.at as int]);
                lemma_dec_mono(s, st0, self.at as int + 1, en);
                assert(dec_value(s.subrange(st0, self.at as int + 1)) == val * 10 + (b - 48));
                assert(val * 10 + (b - 48) <= usize::MAX);
            }
            val = val * 10 + ((b - 48) as usize);
            self.at = self.at + 1;
        }
        val
    }

    /// Parse the next two numbers of the line.
    pub fn pair(&mut self) -> (r: (usize, usize))
        requires
            has_num(old(self).bytes@, old(self).at as int),
            has_num(old(self).bytes@, next_pos(old(self).bytes@, old(self).at as int)),
        ensures
            final(self).bytes == old(self).bytes,
            r.0 == num_at(old(self).bytes@, old(self).at as int),
            r.1 == num_at(old(self).bytes@, next_pos(old(self).bytes@, old(self).at as int)),
    {
        let first = self.next();
        let second = self.next();
        (first, second)
    }
}

/// A cursor over the input's lines.
pub struct Input {
    pub lines: Vec<String>,
    pub at: usize,
}

impl Input {
    pub fn new(lines: Vec<String>) -> (inp: Input)
        ensures
            inp.lines == lines,
            inp.at == 0,
    {
        Input { lines, at: 0 }
    }

    /// Hand out the current line for token-wise reading and move on; past
    /// the last line the result is empty.
    pub fn line(&mut self) -> (l: Line)
        ensures
            final(self).lines == old(self).lines,
            l.at == 0,
            old(self).at < old(self).lines@.len() ==> l.bytes@ == encode_utf8(
                old(self).lines@[old(self).at as int]@,
            ) && final(self).at == old(self).at + 1,
            old(self).at >= old(self).lines@.len() ==> l.bytes@.len() == 0 && final(self).at == old(
                self,
            ).at,
    {
        if self.at < self.lines.len() {
            let b: &[u8] = self.lines[self.at].as_str().as_bytes();
            let v = slice_to_vec(b);
            self.at = self.at + 1;
            Line { bytes: v, at: 0 }
        } else {
            Line { bytes: Vec::new(), at: 0 }
        }
    }

    /// The current line as a string, advancing; past the last line, empty.
    pub fn string(&mut self) -> (r: String)
        ensures
            final(self).lines == old(self).lines,
            old(self).at < old(self).lines@.len() ==> r@ == old(self).lines@[old(self).at as int]@
                && final(self).at == old(self).at + 1,
            old(self).at >= old(self).lines@.len() ==> r@.len() == 0 && final(self).at == old(
                self,
            ).at,
    {
        if self.at < self.lines.len() {
            let r = self.lines[self.at].clone();
            self.at = self.at + 1;
            r
        } else {
            String::new()
        }
    }

    /// Pass over the current line without looking at it.
    pub fn skip(&mut self)
        ensures
            final(self).lines == old(self).lines,
            old(self).at < old(self).lines@.len() ==> final(self).at == old(self).at + 1,
            old(self).at >= old(self).lines@.len() ==> final(self).at == old(self).at,
    {
        if self.at < self.lines.len() {
            self.at = self.at + 1;
        }
    }

    /// Parse the current line as one decimal number (surrounded by nothing
    /// but whitespace) and advance.
    pub fn parse(&mut self) -> (r: usize)
        requires
            old(self).at < old(self).lines@.len(),
            has_num(encode_utf8(old(self).lines@[old(self).at as int]@), 0),
            ({
                let s = encode_utf8(old(self).lines@[old(self).at as int]@);
                skip_ws_idx(s, next_pos(s, 0)) == s.len()
            }),
        ensures
            final(self).lines == old(self).lines,
            final(self).at == old(self).at + 1,
            r == num_at(encode_utf8(old(self).lines@[old(self).at as int]@), 0),
    {
        let mut l = self.line();
        l.next()
    }
}

} // verus!
