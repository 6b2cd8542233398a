use vstd::prelude::*;
use vstd::string::*;

verus! {

// Text handling: ASCII-oriented normalization and tokenization.
//
// A token is a lowercased run of ASCII letters and digits together with the
// position it occupies in its field.  Consecutive words are one position
// apart; a hard separator (sentence punctuation) between two words pushes
// them `max_distance` positions apart, so that the proximity criterion and
// phrase resolution treat them as unrelated neighbours.

pub open spec fn spec_is_word_char(c: char) -> bool {
    (97 <= c as u32 && c as u32 <= 122) || (65 <= c as u32 && c as u32 <= 90) || (48 <= c as u32
        && c as u32 <= 57)
}

pub open spec fn spec_is_hard_sep(c: char) -> bool {
    c == '.' || c == ',' || c == ';' || c == ':' || c == '!' || c == '?'
}

/// Uppercase ASCII letters fold to lowercase; everything else is kept.
pub open spec fn spec_lower(c: char) -> char {
    if 65 <= c as u32 && c as u32 <= 90 {
        ((c as u8) + 32) as char
    } else {
        c
    }
}

pub fn is_word_char(c: char) -> (r: bool)
    ensures
        r == spec_is_word_char(c),
{
    let x: u32 = c as u32;
    (97 <= x && x <= 122) || (65 <= x && x <= 90) || (48 <= x && x <= 57)
}

pub fn is_hard_sep(c: char) -> (r: bool)
    ensures
        r == spec_is_hard_sep(c),
{
    c == '.' || c == ',' || c == ';' || c == ':' || c == '!' || c == '?'
}

pub fn lower(c: char) -> (r: char)
    ensures
        r == spec_lower(c),
{
    let x: u32 = c as u32;
    if 65 <= x && x <= 90 {
        ((c as u8) + 32) as char
    } else {
        c
    }
}

pub open spec fn spec_sat_add32(a: u32, b: u32) -> u32 {
    if a + b > u32::MAX {
        u32::MAX
    } else {
        (a + b) as u32
    }
}

pub fn sat_add32(a: u32, b: u32) -> (r: u32)
    ensures
        r == spec_sat_add32(a, b),
{
    if a > u32::MAX - b {
        u32::MAX
    } else {
        a + b
    }
}

/// One token of a field: a normalized word and its position.
pub struct Token {
    pub word: Vec<char>,
    pub pos: u32,
}

/// State of the tokenizer scan.
pub ghost struct TokState {
    pub toks: Seq<(Seq<char>, u32)>,
    pub word: Seq<char>,
    pub last_pos: u32,
    pub any: bool,
    pub hard_seen: bool,
}

pub open spec fn tok_init() -> TokState {
    TokState { toks: Seq::empty(), word: Seq::empty(), last_pos: 0, any: false, hard_seen: false }
}

/// Position of the next word to be emitted by `st`.
pub open spec fn tok_next_pos(st: TokState) -> u32 {
    if !st.any {
        0
    } else if st.hard_seen {
        spec_sat_add32(st.last_pos, 8)
    } else {
        spec_sat_add32(st.last_pos, 1)
    }
}

pub open spec fn tok_emit(st: TokState) -> TokState {
    if st.word.len() > 0 {
        let p = tok_next_pos(st);
        TokState {
            toks: st.toks.push((st.word, p)),
            word: Seq::empty(),
            last_pos: p,
            any: true,
            hard_seen: false,
        }
    } else {
        st
    }
}

pub open spec fn tok_step(st: TokState, c: char) -> TokState {
    if spec_is_word_char(c) {
        TokState { word: st.word.push(spec_lower(c)), ..st }
    } else {
        let st1 = tok_emit(st);
        TokState { hard_seen: st1.hard_seen || spec_is_hard_sep(c), ..st1 }
    }
}

pub open spec fn tok_scan(s: Seq<char>) -> TokState
    decreases s.len(),
{
    if s.len() == 0 {
        tok_init()
    } else {
        tok_step(tok_scan(s.drop_last()), s.last())
    }
}

/// The tokens of a piece of text: the words of the scan, with the word still
/// pending at the end of the text emitted last.
pub open spec fn spec_tokens(s: Seq<char>) -> Seq<(Seq<char>, u32)> {
    tok_emit(tok_scan(s)).toks
}

pub open spec fn token_views(v: Seq<Token>) -> Seq<(Seq<char>, u32)> {
    v.map_values(|t: Token| (t.word@, t.pos))
}

proof fn lemma_tok_scan_take(s: Seq<char>, i: int)
    requires
        0 <= i < s.len(),
    ensures
        tok_scan(s.take(i + 1)) == tok_step(tok_scan(s.take(i)), s[i]),
{
    let t = s.take(i + 1);
    assert(t.drop_last() =~= s.take(i));
    assert(t.last() == s[i]);
}

/// Tokenize a field's text.
pub fn tokenize(s: &Vec<char>) -> (r: Vec<Token>)
    ensures
        token_views(r@) == spec_tokens(s@),
{
    let len: usize = s.len();
    let mut toks: Vec<Token> = Vec::new();
    let mut word: Vec<char> = Vec::new();
    let mut last_pos: u32 = 0;
    let mut any: bool = false;
    let mut hard_seen: bool = false;
    let mut i: usize = 0;
    proof {
        assert(s@.take(0) =~= Seq::<char>::empty());
        assert(token_views(toks@) =~= Seq::<(Seq<char>, u32)>::empty());
    }
    while i < len
        invariant
            len == s@.len(),
            i <= len,
            tok_scan(s@.take(i as int)) == (TokState {
                toks: token_views(toks@),
                word: word@,
                last_pos: last_pos,
                any: any,
                hard_seen: hard_seen,
            }),
        decreases len - i,
    {
        proof {
            lemma_tok_scan_take(s@, i as int);
        }
        let c = s[i];
        if is_word_char(c) {
            word.push(lower(c));
            assert(token_views(toks@) =~= token_views(toks@));
        } else {
            if word.len() > 0 {
                let p: u32 = if !any {
                    0
                } else if hard_seen {
                    sat_add32(last_pos, 8)
                } else {
                    sat_add32(last_pos, 1)
                };
                let ghost old_toks = toks@;
                toks.push(Token { word, pos: p });
                proof {
                    assert(token_views(toks@) =~= token_views(old_toks).push((toks@[toks@.len()
                        - 1].word@, p)));
                }
                word = Vec::new();
                any = true;
                last_pos = p;
                hard_seen = false;
            }
            if is_hard_sep(c) {
                hard_seen = true;
            }
        }
        i = i + 1;
    }
    assert(s@.take(len as int) =~= s@);
    if word.len() > 0 {
        let p: u32 = if !any {
            0
        } else if hard_seen {
            sat_add32(last_pos, 8)
        } else {
            sat_add32(last_pos, 1)
        };
        let ghost old_toks = toks@;
        toks.push(Token { word, pos: p });
        proof {
            assert(token_views(toks@) =~= token_views(old_toks).push((toks@[toks@.len()
                - 1].word@, p)));
        }
    }
    toks
}

/// Copy the characters of a string slice.
pub fn str_to_chars(s: &str) -> (r: Vec<char>)
    ensures
        r@ == s@,
{
    let len: usize = s.unicode_len();
    let mut r: Vec<char> = Vec::new();
    let mut i: usize = 0;
    while i < len
        invariant
            len == s@.len(),
            i <= len,
            r@ == s@.take(i as int),
        decreases len - i,
    {
        r.push(s.get_char(i));
        proof {
            assert(r@ =~= s@.take(i + 1));
        }
        i = i + 1;
    }
    proof {
        assert(r@ =~= s@);
    }
    r
}

/// Equality of two character vectors.
pub fn chars_eq(a: &Vec<char>, b: &Vec<char>) -> (r: bool)
    ensures
        r == (a@ == b@),
{
    if a.len() != b.len() {
        proof {
            assert(a@ !~= b@);
        }
        return false;
    }
    let mut i: usize = 0;
    while i < a.len()
        invariant
            a@.len() == b@.len(),
            i <= a@.len(),
            forall|j: int| 0 <= j < i ==> a@[j] == b@[j],
        decreases a@.len() - i,
    {
        if a[i] != b[i] {
            proof {
                assert(a@ !~= b@);
            }
            return false;
        }
        i = i + 1;
    }
    proof {
        assert(a@ =~= b@);
    }
    true
}

pub open spec fn spec_digit(d: nat) -> char {
    ((48 + d) as u8) as char
}

/// Decimal digits of an unsigned number.
pub open spec fn spec_u64_chars(m: nat) -> Seq<char>
    decreases m,
{
    if m < 10 {
        seq![spec_digit(m)]
    } else {
        spec_u64_chars(m / 10).push(spec_digit(m % 10))
    }
}

/// Decimal form of a signed number, with a leading minus sign if negative.
pub open spec fn spec_i64_chars(n: int) -> Seq<char> {
    if n >= 0 {
        spec_u64_chars(n as nat)
    } else {
        seq!['-'].add(spec_u64_chars((-n) as nat))
    }
}

pub fn u64_chars(m: u64) -> (r: Vec<char>)
    ensures
        r@ == spec_u64_chars(m as nat),
    decreases m,
{
    if m < 10 {
        let mut r: Vec<char> = Vec::new();
        r.push(((48 + (m as u8)) as u8) as char);
        proof {
            assert(r@ =~= spec_u64_chars(m as nat));
        }
        r
    } else {
        let mut r = u64_chars(m / 10);
        r.push(((48 + ((m % 10) as u8)) as u8) as char);
        proof {
            assert(r@ =~= spec_u64_chars(m as nat));
        }
        r
    }
}

pub fn i64_chars(n: i64) -> (r: Vec<char>)
    ensures
        r@ == spec_i64_chars(n as int),
{
    if n >= 0 {
        u64_chars(n as u64)
    } else {
        let m: u64 = ((-(n as i128)) as u64);
        let mut r: Vec<char> = Vec::new();
        r.push('-');
        let digits = u64_chars(m);
        let mut i: usize = 0;
        while i < digits.len()
            invariant
                i <= digits@.len(),
                r@ == seq!['-'].add(digits@.take(i as int)),
            decreases digits@.len() - i,
        {
            r.push(digits[i]);
            proof {
                assert(r@ =~= seq!['-'].add(digits@.take(i + 1)));
            }
            i = i + 1;
        }
        proof {
            assert(digits@.take(digits@.len() as int) =~= digits@);
        }
        r
    }
}

} // verus!
