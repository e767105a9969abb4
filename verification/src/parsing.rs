//! Tokenizer and recursive-descent parsers for chemical formulas and
//! equations.  Tokens keep their source offset so that every error can point
//! at the offending column.

use vstd::prelude::*;
use vstd::string::*;

verus! {

#[derive(Eq, PartialEq, Debug, Copy, Clone, Structural)]
pub enum TokenType {
    Alphabetic,
    Numeric,
    Dot,
    OpeningParenthesis,
    ClosingParenthesis,
    OpeningBracket,
    ClosingBracket,
    Plus,
    Minus,
    Exponent,
    Arrow,
    Whitespace,
    NoType,
}

/// Spec-level image of a token: its text, its category and its offset.
pub ghost struct TokV {
    pub text: Seq<char>,
    pub kind: TokenType,
    pub pos: int,
}

/// Token(text, category, source offset).
#[derive(Debug)]
pub struct Token(pub String, pub TokenType, pub u64);

impl View for Token {
    type V = TokV;

    open spec fn view(&self) -> TokV {
        TokV { text: self.0@, kind: self.1, pos: self.2 as int }
    }
}

impl Clone for Token {
    fn clone(&self) -> (r: Token)
        ensures
            r@ == self@,
    {
        Token(self.0.clone(), self.1, self.2)
    }
}

impl PartialEq for Token {
    fn eq(&self, other: &Token) -> (r: bool) {
        self.0 == other.0 && self.1 == other.1 && self.2 == other.2
    }
}

impl vstd::std_specs::cmp::PartialEqSpecImpl for Token {
    open spec fn obeys_eq_spec() -> bool {
        true
    }

    open spec fn eq_spec(&self, other: &Token) -> bool {
        self@ == other@
    }
}

impl Eq for Token {

}

/// The views of a sequence of tokens.
pub open spec fn toks_view(ts: Seq<Token>) -> Seq<TokV> {
    ts.map_values(|t: Token| t@)
}

pub broadcast proof fn lemma_toks_view_index(ts: Seq<Token>, i: int)
    ensures
        #![trigger ts[i]]
        #![trigger toks_view(ts)[i]]
        0 <= i < ts.len() ==> toks_view(ts)[i] == ts[i]@,
{
}

/// The character for a single decimal digit.
pub open spec fn digit_char(d: nat) -> char {
    if d == 0 {
        '0'
    } else if d == 1 {
        '1'
    } else if d == 2 {
        '2'
    } else if d == 3 {
        '3'
    } else if d == 4 {
        '4'
    } else if d == 5 {
        '5'
    } else if d == 6 {
        '6'
    } else if d == 7 {
        '7'
    } else if d == 8 {
        '8'
    } else {
        '9'
    }
}

/// The decimal digits of `n`, most significant first.
pub open spec fn spec_digits(n: nat) -> Seq<char>
    decreases n,
{
    if n < 10 {
        seq![digit_char(n)]
    } else {
        spec_digits(n / 10).push(digit_char(n % 10))
    }
}

/// The one-character text of a single decimal digit.
fn digit_str(d: u64) -> (r: &'static str)
    requires
        d < 10,
    ensures
        r@ == seq![digit_char(d as nat)],
{
    proof {
        reveal_strlit("0");
        reveal_strlit("1");
        reveal_strlit("2");
        reveal_strlit("3");
        reveal_strlit("4");
        reveal_strlit("5");
        reveal_strlit("6");
        reveal_strlit("7");
        reveal_strlit("8");
        reveal_strlit("9");
    }
    let r = match d {
        0 => "0",
        1 => "1",
        2 => "2",
        3 => "3",
        4 => "4",
        5 => "5",
        6 => "6",
        7 => "7",
        8 => "8",
        _ => "9",
    };
    proof {
        assert(r@ =~= seq![digit_char(d as nat)]);
    }
    r
}

/// Decimal rendering of an unsigned integer.
pub fn u64_to_string(n: u64) -> (r: String)
    ensures
        r@ == spec_digits(n as nat),
    decreases n,
{
    if n < 10 {
        String::from_str(digit_str(n))
    } else {
        let mut s = u64_to_string(n / 10);
        s.append(digit_str(n % 10));
        proof {
            assert(spec_digits((n / 10) as nat).push(digit_char((n % 10) as nat)) =~= spec_digits(
                (n / 10) as nat,
            ) + seq![digit_char((n % 10) as nat)]);
        }
        s
    }
}

/// Classification of one character: its token category, and whether it must
/// start a fresh token even after a character of the same category (an
/// uppercase letter opens a new element symbol, and the single-character
/// categories never merge).
pub open spec fn spec_token_type(c: char) -> (TokenType, bool) {
    let u = c as u32;
    if 65 <= u <= 90 {  // 'A'..='Z'
        (TokenType::Alphabetic, true)
    } else if 97 <= u <= 122 {  // 'a'..='z'
        (TokenType::Alphabetic, false)
    } else if 48 <= u <= 57 {  // '0'..='9'
        (TokenType::Numeric, false)
    } else if c == '(' {
        (TokenType::OpeningParenthesis, true)
    } else if c == ')' {
        (TokenType::ClosingParenthesis, true)
    } else if c == '[' {
        (TokenType::OpeningBracket, true)
    } else if c == ']' {
        (TokenType::ClosingBracket, true)
    } else if c == '+' {
        (TokenType::Plus, true)
    } else if c == '-' {
        (TokenType::Minus, true)
    } else if c == '^' {
        (TokenType::Exponent, true)
    } else if c == '.' {
        (TokenType::Dot, true)
    } else if c == '=' || c == '<' || c == '>' {
        (TokenType::Arrow, false)
    } else if c == ' ' || c == '\t' || c == '\n' || c == '\r' || c == '\u{0c}' {
        (TokenType::Whitespace, false)
    } else {
        (TokenType::NoType, false)
    }
}

/// Returns (token_type, force_start) for one character.
pub fn token_type_for(c: &char) -> (r: (TokenType, bool))
    ensures
        r == spec_token_type(*c),
{
    let u = *c as u32;
    if 65 <= u && u <= 90 {
        (TokenType::Alphabetic, true)
    } else if 97 <= u && u <= 122 {
        (TokenType::Alphabetic, false)
    } else if 48 <= u && u <= 57 {
        (TokenType::Numeric, false)
    } else if *c == '(' {
        (TokenType::OpeningParenthesis, true)
    } else if *c == ')' {
        (TokenType::ClosingParenthesis, true)
    } else if *c == '[' {
        (TokenType::OpeningBracket, true)
    } else if *c == ']' {
        (TokenType::ClosingBracket, true)
    } else if *c == '+' {
        (TokenType::Plus, true)
    } else if *c == '-' {
        (TokenType::Minus, true)
    } else if *c == '^' {
        (TokenType::Exponent, true)
    } else if *c == '.' {
        (TokenType::Dot, true)
    } else if *c == '=' || *c == '<' || *c == '>' {
        (TokenType::Arrow, false)
    } else if *c == ' ' || *c == '\t' || *c == '\n' || *c == '\r' || *c == '\u{0c}' {
        (TokenType::Whitespace, false)
    } else {
        (TokenType::NoType, false)
    }
}

/// The tokenizer's scan from position `i`, with the pending token (`acc`,
/// `acc_kind`, `acc_start`) and the tokens already emitted: characters of the
/// same category merge unless the category forces a fresh token, and the
/// pending token is always emitted at the end, even when empty.
pub open spec fn spec_tokenize_loop(
    s: Seq<char>,
    i: int,
    acc: Seq<char>,
    acc_kind: TokenType,
    acc_start: int,
    out: Seq<TokV>,
) -> Seq<TokV>
    decreases s.len() - i,
{
    if i < 0 || i >= s.len() {
        out.push(TokV { text: acc, kind: acc_kind, pos: acc_start })
    } else {
        let (k, force) = spec_token_type(s[i]);
        if k == acc_kind && !force {
            spec_tokenize_loop(s, i + 1, acc.push(s[i]), acc_kind, acc_start, out)
        } else {
            let out2 = if acc.len() != 0 {
                out.push(TokV { text: acc, kind: acc_kind, pos: acc_start })
            } else {
                out
            };
            spec_tokenize_loop(s, i + 1, seq![s[i]], k, i, out2)
        }
    }
}

/// The tokens of a text.
pub open spec fn spec_tokenize(s: Seq<char>) -> Seq<TokV> {
    spec_tokenize_loop(s, 0, Seq::empty(), TokenType::NoType, 0, Seq::empty())
}

/// Converts raw text into positioned tokens.
#[verifier::loop_isolation(false)]
pub fn tokenize(txt: &String) -> (r: Vec<Token>)
    ensures
        toks_view(r@) == spec_tokenize(txt@),
{
    broadcast use lemma_toks_view_index;

    let text = txt.as_str();
    let n = text.unicode_len();
    let mut acc_tok_type = TokenType::NoType;
    let mut acc_tok_start: usize = 0;
    let mut tokens: Vec<Token> = Vec::new();
    let mut pos: usize = 0;
    proof {
        assert(txt@.subrange(0, 0) =~= Seq::<char>::empty());
        assert(toks_view(tokens@) =~= Seq::<TokV>::empty());
    }
    while pos < n
        invariant
            0 <= pos <= n,
            n == txt@.len(),
            text@ == txt@,
            0 <= acc_tok_start <= pos,
            spec_tokenize_loop(
                txt@,
                pos as int,
                txt@.subrange(acc_tok_start as int, pos as int),
                acc_tok_type,
                acc_tok_start as int,
                toks_view(tokens@),
            ) == spec_tokenize(txt@),
        decreases n - pos,
    {
        let c = text.get_char(pos);
        let (c_tok_type, force_start) = token_type_for(&c);
        let ghost acc = txt@.subrange(acc_tok_start as int, pos as int);
        if c_tok_type == acc_tok_type && !force_start {
            proof {
                assert(acc.push(c) =~= txt@.subrange(acc_tok_start as int, pos + 1));
            }
        } else {
            if pos - acc_tok_start != 0 {
                let ghost old_view = toks_view(tokens@);
                let tok_text = text.substring_char(acc_tok_start, pos).to_owned();
                tokens.push(Token(tok_text, acc_tok_type, acc_tok_start as u64));
                proof {
                    assert(toks_view(tokens@) =~= old_view.push(
                        TokV { text: acc, kind: acc_tok_type, pos: acc_tok_start as int },
                    ));
                }
            }
            acc_tok_start = pos;
            acc_tok_type = c_tok_type;
            proof {
                assert(seq![c] =~= txt@.subrange(pos as int, pos + 1));
            }
        }
        pos = pos + 1;
    }
    let tok_text = text.substring_char(acc_tok_start, n).to_owned();
    tokens.push(Token(tok_text, acc_tok_type, acc_tok_start as u64));
    proof {
        assert(toks_view(tokens@) =~= spec_tokenize(txt@));
    }
    tokens
}

/// The token texts, concatenated in order.
pub open spec fn concat_texts(toks: Seq<TokV>) -> Seq<char>
    decreases toks.len(),
{
    if toks.len() == 0 {
        Seq::empty()
    } else {
        concat_texts(toks.drop_last()) + toks.last().text
    }
}

/// Each token's offset equals the total length of the texts before it.
pub open spec fn contiguous_offsets(toks: Seq<TokV>) -> bool {
    forall|j: int|
        0 <= j < toks.len() ==> (#[trigger] toks[j]).pos == concat_texts(toks.take(j)).len()
}

proof fn lemma_concat_push(toks: Seq<TokV>, t: TokV)
    ensures
        concat_texts(toks.push(t)) == concat_texts(toks) + t.text,
{
    assert(toks.push(t).drop_last() =~= toks);
    assert(toks.push(t).last() == t);
}

proof fn lemma_take_of_push(toks: Seq<TokV>, t: TokV, j: int)
    requires
        0 <= j <= toks.len(),
    ensures
        toks.push(t).take(j) == toks.take(j),
{
    assert(toks.push(t).take(j) =~= toks.take(j));
}

#[verifier::rlimit(50)]
proof fn lemma_tokenize_loop_round_trip(
    s: Seq<char>,
    i: int,
    acc: Seq<char>,
    acc_kind: TokenType,
    acc_start: int,
    out: Seq<TokV>,
)
    requires
        0 <= acc_start <= i <= s.len(),
        acc == s.subrange(acc_start, i),
        concat_texts(out) == s.take(acc_start),
        contiguous_offsets(out),
        forall|j: int| 0 <= j < out.len() ==> (#[trigger] out[j]).text.len() >= 1,
    ensures
        ({
            let r = spec_tokenize_loop(s, i, acc, acc_kind, acc_start, out);
            &&& concat_texts(r) == s
            &&& contiguous_offsets(r)
            &&& r.len() >= 1
            &&& forall|j: int| 0 <= j < r.len() - 1 ==> (#[trigger] r[j]).text.len() >= 1
        }),
    decreases s.len() - i,
{
    if i >= s.len() {
        let t = TokV { text: acc, kind: acc_kind, pos: acc_start };
        let r = out.push(t);
        lemma_concat_push(out, t);
        assert(s.take(acc_start) + s.subrange(acc_start, i) =~= s);
        assert(contiguous_offsets(r)) by {
            assert forall|j: int| 0 <= j < r.len() implies (#[trigger] r[j]).pos == concat_texts(
                r.take(j),
            ).len() by {
                lemma_take_of_push(out, t, if j <= out.len() {
                    j
                } else {
                    out.len() as int
                });
                if j < out.len() {
                    assert(r[j] == out[j]);
                } else {
                    assert(r.take(j) =~= out);
                    assert(s.take(acc_start).len() == acc_start);
                }
            }
        }
        assert(forall|j: int| 0 <= j < r.len() - 1 ==> (#[trigger] r[j]).text.len() >= 1);
    } else {
        let (k, force) = spec_token_type(s[i]);
        if k == acc_kind && !force {
            assert(acc.push(s[i]) =~= s.subrange(acc_start, i + 1));
            lemma_tokenize_loop_round_trip(s, i + 1, acc.push(s[i]), acc_kind, acc_start, out);
        } else {
            if acc.len() != 0 {
                let t = TokV { text: acc, kind: acc_kind, pos: acc_start };
                let out2 = out.push(t);
                lemma_concat_push(out, t);
                assert(concat_texts(out2) =~= s.take(i)) by {
                    assert(s.take(acc_start) + s.subrange(acc_start, i) =~= s.take(i));
                }
                assert(contiguous_offsets(out2)) by {
                    assert forall|j: int| 0 <= j < out2.len() implies (#[trigger] out2[j]).pos
                        == concat_texts(out2.take(j)).len() by {
                        lemma_take_of_push(out, t, if j <= out.len() {
                            j
                        } else {
                            out.len() as int
                        });
                        if j < out.len() {
                            assert(out2[j] == out[j]);
                        } else {
                            assert(out2.take(j) =~= out);
                            assert(s.take(acc_start).len() == acc_start);
                        }
                    }
                }
                assert(seq![s[i]] =~= s.subrange(i, i + 1));
                lemma_tokenize_loop_round_trip(s, i + 1, seq![s[i]], k, i, out2);
            } else {
                assert(acc_start == i);
                assert(seq![s[i]] =~= s.subrange(i, i + 1));
                lemma_tokenize_loop_round_trip(s, i + 1, seq![s[i]], k, i, out);
            }
        }
    }
}

/// Tokenizer round trip: concatenating the token texts in order reproduces
/// the input exactly; each token's offset equals the total length of the
/// texts before it, so offsets are contiguous and strictly increasing (every
/// token except possibly the last is non-empty).
pub proof fn lemma_tokenize_round_trip(s: Seq<char>)
    ensures
        concat_texts(spec_tokenize(s)) == s,
        contiguous_offsets(spec_tokenize(s)),
        spec_tokenize(s).len() >= 1,
        forall|j: int|
            0 <= j < spec_tokenize(s).len() - 1 ==> (#[trigger] spec_tokenize(s)[j]).text.len()
                >= 1,
{
    assert(Seq::<char>::empty() =~= s.subrange(0, 0));
    assert(concat_texts(Seq::<TokV>::empty()) =~= s.take(0));
    lemma_tokenize_loop_round_trip(s, 0, Seq::empty(), TokenType::NoType, 0, Seq::empty());
}

/// PositionedError(error message, optional source offset).
#[derive(Debug)]
pub struct PositionedError(pub String, pub Option<u64>);

impl Clone for PositionedError {
    fn clone(&self) -> (r: PositionedError)
        ensures
            r.0@ == self.0@,
            r.1 == self.1,
    {
        PositionedError(self.0.clone(), self.1)
    }
}

/// All characters are decimal digits.
pub open spec fn all_digits(s: Seq<char>) -> bool {
    forall|i: int| 0 <= i < s.len() ==> 48 <= (#[trigger] s[i]) as u32 <= 57
}

/// The number written by a digit string, most significant digit first.
pub open spec fn digits_value(s: Seq<char>) -> int
    decreases s.len(),
{
    if s.len() == 0 {
        0
    } else {
        digits_value(s.drop_last()) * 10 + (s.last() as u32 - 48)
    }
}

/// The number written by a text: `None` unless it is one or more digits.
pub open spec fn spec_number(s: Seq<char>) -> Option<int> {
    if s.len() == 0 || !all_digits(s) {
        None
    } else {
        Some(digits_value(s))
    }
}

proof fn lemma_digits_value_nonneg(s: Seq<char>)
    requires
        all_digits(s),
    ensures
        digits_value(s) >= 0,
    decreases s.len(),
{
    if s.len() > 0 {
        assert(forall|i: int|
            0 <= i < s.drop_last().len() ==> (#[trigger] s.drop_last()[i]) == s[i]);
        lemma_digits_value_nonneg(s.drop_last());
        assert(digits_value(s.drop_last()) * 10 >= 0) by (nonlinear_arith)
            requires
                digits_value(s.drop_last()) >= 0,
        ;
    }
}

proof fn lemma_digits_step(s: Seq<char>, i: int)
    requires
        0 <= i < s.len(),
    ensures
        digits_value(s.take(i + 1)) == digits_value(s.take(i)) * 10 + (s[i] as u32 - 48),
{
    assert(s.take(i + 1).drop_last() =~= s.take(i));
    assert(s.take(i + 1).last() == s[i]);
}

proof fn lemma_digits_prefix_le(s: Seq<char>, i: int)
    requires
        0 <= i <= s.len(),
        all_digits(s),
    ensures
        digits_value(s.take(i)) <= digits_value(s),
    decreases s.len() - i,
{
    if i < s.len() {
        lemma_digits_step(s, i);
        assert(forall|j: int| 0 <= j < s.take(i).len() ==> (#[trigger] s.take(i)[j]) == s[j]);
        lemma_digits_value_nonneg(s.take(i));
        assert(digits_value(s.take(i)) * 10 >= digits_value(s.take(i))) by (nonlinear_arith)
            requires
                digits_value(s.take(i)) >= 0,
        ;
        lemma_digits_prefix_le(s, i + 1);
    } else {
        assert(s.take(i) =~= s);
    }
}

/// Reads a decimal number, or `None` when the text is not a plain digit run
/// or its value leaves `u64`.
#[verifier::loop_isolation(false)]
pub fn parse_number_u64(text: &str) -> (r: Option<u64>)
    ensures
        r matches Some(v) ==> spec_number(text@) == Some(v as int),
        r is None <==> (spec_number(text@) is None || spec_number(text@).unwrap() > u64::MAX),
{
    let n = text.unicode_len();
    if n == 0 {
        return None;
    }
    let mut acc: u64 = 0;
    let mut i: usize = 0;
    while i < n
        invariant
            0 <= i <= n,
            n == text@.len(),
            n > 0,
            all_digits(text@.take(i as int)),
            acc == digits_value(text@.take(i as int)),
        decreases n - i,
    {
        let c = text.get_char(i);
        let u = c as u32;
        if !(48 <= u && u <= 57) {
            return None;
        }
        proof {
            lemma_digits_step(text@, i as int);
            assert(forall|j: int|
                0 <= j < i + 1 ==> 48 <= (#[trigger] text@.take(i + 1)[j]) as u32 <= 57);
        }
        let d = (u - 48) as u64;
        acc = match acc.checked_mul(10) {
            Some(a) => a,
            None => {
                proof {
                    lemma_digits_tail_overflow(text@, i as int, acc as int);
                }
                return None;
            },
        };
        acc = match acc.checked_add(d) {
            Some(a) => a,
            None => {
                proof {
                    lemma_digits_tail_overflow(text@, i as int, (acc / 10) as int);
                }
                return None;
            },
        };
        i = i + 1;
    }
    proof {
        assert(text@.take(n as int) =~= text@);
    }
    Some(acc)
}

/// If the digits up to `i` already write a value whose next extension leaves
/// `u64`, then — when the whole text is digits — its value leaves `u64` too.
proof fn lemma_digits_tail_overflow(s: Seq<char>, i: int, prefix: int)
    requires
        0 <= i < s.len(),
        prefix == digits_value(s.take(i)),
        prefix * 10 + (s[i] as u32 - 48) > u64::MAX || prefix * 10 > u64::MAX,
        48 <= s[i] as u32 <= 57,
    ensures
        all_digits(s) ==> digits_value(s) > u64::MAX,
{
    if all_digits(s) {
        lemma_digits_step(s, i);
        lemma_digits_prefix_le(s, i + 1);
        lemma_digits_value_nonneg(s.take(i));
        assert(prefix * 10 >= 0) by (nonlinear_arith)
            requires
                prefix >= 0,
        ;
    }
}

/// Reads a decimal number that must fit a `u32`.
pub fn parse_number_u32(text: &str) -> (r: Option<u32>)
    ensures
        r matches Some(v) ==> spec_number(text@) == Some(v as int),
        r is None <==> (spec_number(text@) is None || spec_number(text@).unwrap() > u32::MAX),
{
    match parse_number_u64(text) {
        Some(v) => {
            if v > u32::MAX as u64 {
                None
            } else {
                Some(v as u32)
            }
        },
        None => None,
    }
}

/// The outcome of the structural validation: which violation, at which
/// offset.
pub ghost enum CheckErr {
    Mismatch { pos: int, text: Seq<char> },
    NeverOpened { pos: int, text: Seq<char> },
    Unrecognized { pos: int, text: Seq<char> },
    NeverClosed { pos: int, text: Seq<char> },
}

pub open spec fn check_err_pos(e: CheckErr) -> int {
    match e {
        CheckErr::Mismatch { pos, .. } => pos,
        CheckErr::NeverOpened { pos, .. } => pos,
        CheckErr::Unrecognized { pos, .. } => pos,
        CheckErr::NeverClosed { pos, .. } => pos,
    }
}

/// The message names the offending token.
pub open spec fn check_err_msg(e: CheckErr) -> Seq<char> {
    match e {
        CheckErr::Mismatch { text, .. } => "mismatched group symbols: "@ + text,
        CheckErr::NeverOpened { text, .. } => "closing symbol was never opened: "@ + text,
        CheckErr::Unrecognized { text, .. } => "unrecognized token: "@ + text,
        CheckErr::NeverClosed { text, .. } => "group symbol never closed: "@ + text,
    }
}

/// The structural scan: a stack of open group symbols; a '(' must close
/// with ')' and a '[' with ']'; an unrecognized token is rejected; at the
/// end the stack must be empty.
pub open spec fn spec_check(toks: Seq<TokV>, stack: Seq<TokV>) -> Option<CheckErr>
    decreases toks.len(),
{
    if toks.len() == 0 {
        if stack.len() == 0 {
            None
        } else {
            Some(CheckErr::NeverClosed { pos: stack.last().pos, text: stack.last().text })
        }
    } else {
        let t = toks[0];
        if t.kind == TokenType::OpeningParenthesis || t.kind == TokenType::OpeningBracket {
            spec_check(toks.drop_first(), stack.push(t))
        } else if t.kind == TokenType::ClosingParenthesis {
            if stack.len() == 0 {
                Some(CheckErr::NeverOpened { pos: t.pos, text: t.text })
            } else if stack.last().kind == TokenType::OpeningParenthesis {
                spec_check(toks.drop_first(), stack.drop_last())
            } else {
                Some(CheckErr::Mismatch { pos: t.pos, text: t.text })
            }
        } else if t.kind == TokenType::ClosingBracket {
            if stack.len() == 0 {
                Some(CheckErr::NeverOpened { pos: t.pos, text: t.text })
            } else if stack.last().kind == TokenType::OpeningBracket {
                spec_check(toks.drop_first(), stack.drop_last())
            } else {
                Some(CheckErr::Mismatch { pos: t.pos, text: t.text })
            }
        } else if t.kind == TokenType::NoType {
            Some(CheckErr::Unrecognized { pos: t.pos, text: t.text })
        } else {
            spec_check(toks.drop_first(), stack)
        }
    }
}

/// A message of shape `<prefix><token text>`, naming the offending token.
fn msg_with_token(prefix: &str, text: &String) -> (r: String)
    ensures
        r@ == prefix@ + text@,
{
    let mut m = String::from_str(prefix);
    m.append(text.as_str());
    m
}

/// Structural validation: independent bracket matching and rejection of
/// unrecognized tokens, naming the offending token and its offset.
#[verifier::loop_isolation(false)]
pub fn check_token_seq(tokens: &Vec<Token>) -> (r: Result<(), PositionedError>)
    ensures
        r is Ok <==> spec_check(toks_view(tokens@), Seq::empty()) is None,
        r matches Err(e) ==> {
            let out = spec_check(toks_view(tokens@), Seq::empty());
            &&& out matches Some(ce)
            &&& e.0@ == check_err_msg(out.unwrap())
            &&& e.1 matches Some(p) && p as int == check_err_pos(out.unwrap())
        },
{
    broadcast use lemma_toks_view_index;

    let ghost tv = toks_view(tokens@);
    let mut parentheses: Vec<Token> = Vec::new();
    let mut i: usize = 0;
    proof {
        assert(tv.skip(0) =~= tv);
        assert(toks_view(parentheses@) =~= Seq::<TokV>::empty());
    }
    while i < tokens.len()
        invariant
            0 <= i <= tokens@.len(),
            tv == toks_view(tokens@),
            tv.len() == tokens@.len(),
            spec_check(tv.skip(i as int), toks_view(parentheses@)) == spec_check(
                tv,
                Seq::empty(),
            ),
            forall|k: int|
                0 <= k < parentheses@.len() ==> (#[trigger] toks_view(parentheses@)[k]).kind
                    == TokenType::OpeningParenthesis || toks_view(parentheses@)[k].kind
                    == TokenType::OpeningBracket,
        decreases tokens@.len() - i,
    {
        proof {
            assert(tv.skip(i as int).drop_first() =~= tv.skip(i + 1));
            assert(tv.skip(i as int)[0] == tv[i as int]);
        }
        let kind = tokens[i].1;
        if kind == TokenType::OpeningParenthesis || kind == TokenType::OpeningBracket {
            let ghost before = toks_view(parentheses@);
            parentheses.push(tokens[i].clone());
            proof {
                assert(toks_view(parentheses@) =~= before.push(tv[i as int]));
            }
        } else if kind == TokenType::ClosingParenthesis {
            if parentheses.len() == 0 {
                return Err(
                    PositionedError(
                        msg_with_token("closing symbol was never opened: ", &tokens[i].0),
                        Some(tokens[i].2),
                    ),
                );
            }
            let top_kind = parentheses[parentheses.len() - 1].1;
            if top_kind == TokenType::OpeningParenthesis {
                let ghost before = toks_view(parentheses@);
                let _ = parentheses.pop();
                proof {
                    assert(toks_view(parentheses@) =~= before.drop_last());
                }
            } else {
                return Err(
                    PositionedError(
                        msg_with_token("mismatched group symbols: ", &tokens[i].0),
                        Some(tokens[i].2),
                    ),
                );
            }
        } else if kind == TokenType::ClosingBracket {
            if parentheses.len() == 0 {
                return Err(
                    PositionedError(
                        msg_with_token("closing symbol was never opened: ", &tokens[i].0),
                        Some(tokens[i].2),
                    ),
                );
            }
            let top_kind = parentheses[parentheses.len() - 1].1;
            if top_kind == TokenType::OpeningBracket {
                let ghost before = toks_view(parentheses@);
                let _ = parentheses.pop();
                proof {
                    assert(toks_view(parentheses@) =~= before.drop_last());
                }
            } else {
                return Err(
                    PositionedError(
                        msg_with_token("mismatched group symbols: ", &tokens[i].0),
                        Some(tokens[i].2),
                    ),
                );
            }
        } else if kind == TokenType::NoType {
            return Err(
                PositionedError(
                    msg_with_token("unrecognized token: ", &tokens[i].0),
                    Some(tokens[i].2),
                ),
            );
        }
        i = i + 1;
    }
    proof {
        assert(tv.skip(tv.len() as int) =~= Seq::<TokV>::empty());
    }
    if parentheses.len() > 0 {
        let top = &parentheses[parentheses.len() - 1];
        return Err(
            PositionedError(
                msg_with_token("group symbol never closed: ", &top.0),
                Some(top.2),
            ),
        );
    }
    Ok(())
}

proof fn lemma_group_end_bounds(toks: Seq<TokV>, j: int, to: int, depth: int)
    ensures
        spec_group_end(toks, j, to, depth) matches Some(c) ==> j <= c < to,
    decreases to - j,
{
    if 0 <= j < to <= toks.len() {
        lemma_group_end_bounds(toks, j + 1, to, depth + 1);
        lemma_group_end_bounds(toks, j + 1, to, depth - 1);
        lemma_group_end_bounds(toks, j + 1, to, depth);
    } else if 0 <= j < to {
        lemma_group_end_bounds(toks, j + 1, to, depth + 1);
        lemma_group_end_bounds(toks, j + 1, to, depth - 1);
        lemma_group_end_bounds(toks, j + 1, to, depth);
    }
}

/// The outcome of semantic formula parsing: which failure, at which offset.
pub ghost enum ParseErrV {
    UnknownElement { pos: int, sym: Seq<char> },
    Unbalanced,
    ChargeFormat { pos: int },
    Unexpected { pos: int, text: Seq<char> },
    BadNumber { pos: int },
}

/// The message names the offending token where one is at fault.
pub open spec fn parse_err_msg(e: ParseErrV) -> Seq<char> {
    match e {
        ParseErrV::UnknownElement { sym, .. } => "unknown element: "@ + sym,
        ParseErrV::Unbalanced => "unbalanced parentheses"@,
        ParseErrV::ChargeFormat { .. } => "charge format error, expected '^<charge><+/->' or '^<+/-><charge>'"@,
        ParseErrV::Unexpected { text, .. } => "unexpected token: "@ + text,
        ParseErrV::BadNumber { .. } => "number out of range"@,
    }
}

pub open spec fn parse_err_pos(e: ParseErrV) -> Option<int> {
    match e {
        ParseErrV::UnknownElement { pos, .. } => Some(pos),
        ParseErrV::Unbalanced => None,
        ParseErrV::ChargeFormat { pos } => Some(pos),
        ParseErrV::Unexpected { pos, .. } => Some(pos),
        ParseErrV::BadNumber { pos } => Some(pos),
    }
}

/// Turns a spec-level parse failure into the error value handed to callers.
fn positioned_of_parse_err(msg: &str, pos: Option<u64>) -> (r: PositionedError)
    ensures
        r.0@ == msg@,
        r.1 == pos,
{
    PositionedError(String::from_str(msg), pos)
}

/// Strict lexicographic order on character sequences, by character code.
pub open spec fn lex_lt(a: Seq<char>, b: Seq<char>) -> bool
    decreases a.len(),
{
    if b.len() == 0 {
        false
    } else if a.len() == 0 {
        true
    } else if (a[0] as u32) < (b[0] as u32) {
        true
    } else if (a[0] as u32) > (b[0] as u32) {
        false
    } else {
        lex_lt(a.drop_first(), b.drop_first())
    }
}

/// Two characters with the same code point are the same character.
proof fn lemma_char_code_injective(c1: char, c2: char)
    requires
        c1 as u32 == c2 as u32,
    ensures
        c1 == c2,
{
}

proof fn lemma_lex_total(a: Seq<char>, b: Seq<char>)
    ensures
        a == b || lex_lt(a, b) || lex_lt(b, a),
    decreases a.len(),
{
    if a.len() == 0 && b.len() == 0 {
        assert(a =~= b);
    } else if a.len() > 0 && b.len() > 0 && (a[0] as u32) == (b[0] as u32) {
        lemma_char_code_injective(a[0], b[0]);
        lemma_lex_total(a.drop_first(), b.drop_first());
        if a.drop_first() == b.drop_first() {
            assert(a.len() == b.len());
            assert forall|t: int| 0 <= t < a.len() implies a[t] == b[t] by {
                if t == 0 {
                    assert(a[0] == b[0]);
                } else {
                    assert(a.drop_first()[t - 1] == a[t]);
                    assert(b.drop_first()[t - 1] == b[t]);
                    assert(a.drop_first()[t - 1] == b.drop_first()[t - 1]);
                }
            }
            assert(a =~= b);
        }
    }
}

proof fn lemma_lex_trans(a: Seq<char>, b: Seq<char>, c: Seq<char>)
    requires
        lex_lt(a, b),
        lex_lt(b, c),
    ensures
        lex_lt(a, c),
    decreases a.len(),
{
    if a.len() > 0 && b.len() > 0 && c.len() > 0 && (a[0] as u32) == (b[0] as u32) && (
    b[0] as u32) == (c[0] as u32) {
        lemma_lex_trans(a.drop_first(), b.drop_first(), c.drop_first());
    }
}

/// The canonical strict order on atoms: by symbol, then name, then mass.
pub open spec fn spec_atom_lt(a: crate::chemistry::AtomV, b: crate::chemistry::AtomV) -> bool {
    ||| lex_lt(a.code, b.code)
    ||| (a.code == b.code && lex_lt(a.name, b.name))
    ||| (a.code == b.code && a.name == b.name && a.mass_milli < b.mass_milli)
}

proof fn lemma_atom_lt_total(a: crate::chemistry::AtomV, b: crate::chemistry::AtomV)
    ensures
        a == b || spec_atom_lt(a, b) || spec_atom_lt(b, a),
{
    lemma_lex_total(a.code, b.code);
    lemma_lex_total(a.name, b.name);
}

proof fn lemma_atom_lt_trans(
    a: crate::chemistry::AtomV,
    b: crate::chemistry::AtomV,
    c: crate::chemistry::AtomV,
)
    requires
        spec_atom_lt(a, b),
        spec_atom_lt(b, c),
    ensures
        spec_atom_lt(a, c),
{
    if lex_lt(a.code, b.code) && lex_lt(b.code, c.code) {
        lemma_lex_trans(a.code, b.code, c.code);
    }
    if lex_lt(a.name, b.name) && lex_lt(b.name, c.name) {
        lemma_lex_trans(a.name, b.name, c.name);
    }
}

/// Strict lexicographic comparison of two texts.
#[verifier::loop_isolation(false)]
fn str_lt(a: &str, b: &str) -> (r: bool)
    ensures
        r == lex_lt(a@, b@),
{
    let na = a.unicode_len();
    let nb = b.unicode_len();
    let mut i: usize = 0;
    proof {
        assert(a@.skip(0) =~= a@);
        assert(b@.skip(0) =~= b@);
    }
    while i < na && i < nb
        invariant
            0 <= i <= na,
            0 <= i <= nb,
            na == a@.len(),
            nb == b@.len(),
            lex_lt(a@, b@) == lex_lt(a@.skip(i as int), b@.skip(i as int)),
            forall|t: int| 0 <= t < i ==> a@[t] == b@[t],
        decreases na - i,
    {
        let ca = a.get_char(i);
        let cb = b.get_char(i);
        proof {
            assert(a@.skip(i as int)[0] == a@[i as int]);
            assert(b@.skip(i as int)[0] == b@[i as int]);
            assert(a@.skip(i as int).drop_first() =~= a@.skip(i + 1));
            assert(b@.skip(i as int).drop_first() =~= b@.skip(i + 1));
        }
        if (ca as u32) < (cb as u32) {
            return true;
        }
        if (ca as u32) > (cb as u32) {
            return false;
        }
        i = i + 1;
    }
    proof {
        assert(a@.skip(i as int).len() == na - i);
        assert(b@.skip(i as int).len() == nb - i);
    }
    na < nb
}

/// The canonical strict comparison of two atoms.
fn atom_lt(a: &crate::chemistry::Atom, b: &crate::chemistry::Atom) -> (r: bool)
    ensures
        r == spec_atom_lt(a@, b@),
{
    if str_lt(a.code.as_str(), b.code.as_str()) {
        return true;
    }
    if !(a.code == b.code) {
        return false;
    }
    if str_lt(a.name.as_str(), b.name.as_str()) {
        return true;
    }
    if !(a.name == b.name) {
        return false;
    }
    a.atomic_mass_milli_amu < b.atomic_mass_milli_amu
}

/// The entries are in strictly ascending canonical atom order (so the keys
/// are also pairwise distinct).
pub open spec fn entries_sorted(s: Seq<(crate::chemistry::AtomV, int)>) -> bool {
    forall|i: int, j: int|
        0 <= i < j < s.len() ==> spec_atom_lt((#[trigger] s[i]).0, (#[trigger] s[j]).0)
}

/// The position at which a new key keeps the list sorted: the first index
/// whose atom is greater, scanning from `i`.
pub open spec fn spec_insert_at(
    s: Seq<(crate::chemistry::AtomV, int)>,
    a: crate::chemistry::AtomV,
    i: int,
) -> int
    decreases s.len() - i,
{
    if i < 0 || i >= s.len() {
        s.len() as int
    } else if spec_atom_lt(a, s[i].0) {
        i
    } else {
        spec_insert_at(s, a, i + 1)
    }
}

proof fn lemma_insert_at_props(
    s: Seq<(crate::chemistry::AtomV, int)>,
    a: crate::chemistry::AtomV,
    i: int,
)
    requires
        0 <= i <= s.len(),
    ensures
        i <= spec_insert_at(s, a, i) <= s.len(),
        forall|t: int| i <= t < spec_insert_at(s, a, i) ==> !spec_atom_lt(a, (#[trigger] s[t]).0),
        spec_insert_at(s, a, i) < s.len() ==> spec_atom_lt(a, s[spec_insert_at(s, a, i)].0),
    decreases s.len() - i,
{
    if i < s.len() && !spec_atom_lt(a, s[i].0) {
        lemma_insert_at_props(s, a, i + 1);
    }
}

/// First index at or after `i` whose entry is for the key `a`.
pub open spec fn spec_find_key(acc: Seq<(crate::chemistry::AtomV, int)>, a: crate::chemistry::AtomV, i: int) -> Option<int>
    decreases acc.len() - i,
{
    if i < 0 || i >= acc.len() {
        None
    } else if acc[i].0 == a {
        Some(i)
    } else {
        spec_find_key(acc, a, i + 1)
    }
}

/// The total multiplicity the key would carry after merging `c` more.
pub open spec fn spec_merge_total(acc: Seq<(crate::chemistry::AtomV, int)>, a: crate::chemistry::AtomV, c: int) -> int {
    match spec_find_key(acc, a, 0) {
        Some(ix) => acc[ix].1 + c,
        None => c,
    }
}

/// Merging a key into the running atom-count list: an existing entry is
/// incremented, a new non-zero count is inserted at its canonical (sorted)
/// position, and a zero count for an absent key is never stored.
pub open spec fn spec_merge(acc: Seq<(crate::chemistry::AtomV, int)>, a: crate::chemistry::AtomV, c: int) -> Seq<(crate::chemistry::AtomV, int)> {
    match spec_find_key(acc, a, 0) {
        Some(ix) => acc.update(ix, (acc[ix].0, acc[ix].1 + c)),
        None => if c == 0 {
            acc
        } else {
            acc.insert(spec_insert_at(acc, a, 0), (a, c))
        },
    }
}

proof fn lemma_find_key_absent(
    acc: Seq<(crate::chemistry::AtomV, int)>,
    a: crate::chemistry::AtomV,
    i: int,
)
    requires
        0 <= i,
        spec_find_key(acc, a, i) is None,
    ensures
        forall|t: int| i <= t < acc.len() ==> (#[trigger] acc[t]).0 != a,
    decreases acc.len() - i,
{
    if i < acc.len() {
        lemma_find_key_absent(acc, a, i + 1);
    }
}

proof fn lemma_find_key_props(
    acc: Seq<(crate::chemistry::AtomV, int)>,
    a: crate::chemistry::AtomV,
    i: int,
)
    ensures
        spec_find_key(acc, a, i) matches Some(ix) ==> i <= ix < acc.len() && acc[ix].0 == a,
    decreases acc.len() - i,
{
    if i < acc.len() {
        lemma_find_key_props(acc, a, i + 1);
    }
}

/// Merging preserves the canonical sorted order of the entries.
proof fn lemma_merge_sorted(
    acc: Seq<(crate::chemistry::AtomV, int)>,
    a: crate::chemistry::AtomV,
    c: int,
)
    requires
        entries_sorted(acc),
    ensures
        entries_sorted(spec_merge(acc, a, c)),
{
    lemma_find_key_props(acc, a, 0);
    match spec_find_key(acc, a, 0) {
        Some(ix) => {
            let m = spec_merge(acc, a, c);
            assert forall|i: int, j: int| 0 <= i < j < m.len() implies spec_atom_lt(
                (#[trigger] m[i]).0,
                (#[trigger] m[j]).0,
            ) by {
                assert(m[i].0 == acc[i].0);
                assert(m[j].0 == acc[j].0);
            }
        },
        None => {
            if c != 0 {
                let p = spec_insert_at(acc, a, 0);
                lemma_insert_at_props(acc, a, 0);
                lemma_find_key_absent(acc, a, 0);
                let m = acc.insert(p, (a, c));
                acc.insert_ensures(p, (a, c));
                assert forall|i: int, j: int| 0 <= i < j < m.len() implies spec_atom_lt(
                    (#[trigger] m[i]).0,
                    (#[trigger] m[j]).0,
                ) by {
                    if i < p {
                        lemma_atom_lt_total(acc[i].0, a);
                    }
                    if j == p && i < p {
                        assert(m[i].0 == acc[i].0);
                        assert(m[j].0 == a);
                    } else if i == p && j > p {
                        assert(m[j].0 == acc[j - 1].0);
                        if j - 1 > p {
                            assert(p < acc.len());
                            lemma_atom_lt_trans(a, acc[p].0, acc[j - 1].0);
                        }
                    } else if i < p && j > p {
                        assert(m[i].0 == acc[i].0);
                        assert(m[j].0 == acc[j - 1].0);
                        if j - 1 == i {
                            assert(p < acc.len());
                            lemma_atom_lt_trans(acc[i].0, a, acc[p].0);
                        }
                    } else if i < p && j < p {
                        assert(m[i].0 == acc[i].0);
                        assert(m[j].0 == acc[j].0);
                    } else if i > p && j > p {
                        assert(m[i].0 == acc[i - 1].0);
                        assert(m[j].0 == acc[j - 1].0);
                    }
                }
            }
        },
    }
}

/// Index of the group-closing token that brings the depth back to zero,
/// scanning from `j` with the given open depth.
pub open spec fn spec_group_end(toks: Seq<TokV>, j: int, to: int, depth: int) -> Option<int>
    decreases to - j,
{
    if j < 0 || j >= to {
        None
    } else if toks[j].kind == TokenType::OpeningParenthesis || toks[j].kind
        == TokenType::OpeningBracket {
        spec_group_end(toks, j + 1, to, depth + 1)
    } else if toks[j].kind == TokenType::ClosingParenthesis || toks[j].kind
        == TokenType::ClosingBracket {
        if depth == 1 {
            Some(j)
        } else {
            spec_group_end(toks, j + 1, to, depth - 1)
        }
    } else {
        spec_group_end(toks, j + 1, to, depth)
    }
}

/// Merging a parsed sub-group, entry by entry, each count scaled by the
/// group's multiplier; fails when a scaled or merged count leaves `u32`.
pub open spec fn spec_merge_scaled(
    acc: Seq<(crate::chemistry::AtomV, int)>,
    sub: Seq<(crate::chemistry::AtomV, int)>,
    factor: int,
    pos: int,
) -> Result<Seq<(crate::chemistry::AtomV, int)>, ParseErrV>
    decreases sub.len(),
{
    if sub.len() == 0 {
        Ok(acc)
    } else {
        let a = sub[0].0;
        let sc = sub[0].1 * factor;
        if sc > u32::MAX {
            Err(ParseErrV::BadNumber { pos })
        } else if spec_merge_total(acc, a, sc) > u32::MAX {
            Err(ParseErrV::BadNumber { pos })
        } else {
            spec_merge_scaled(spec_merge(acc, a, sc), sub.drop_first(), factor, pos)
        }
    }
}

/// The recursive-descent scan of a formula span: element symbols with
/// optional multiplicities merge into the running atom-count list, groups
/// recurse on the enclosed span and scale by their trailing multiplier, and
/// a charge marker accumulates a sign/magnitude pair in either order.
pub open spec fn spec_parse_loop(
    table: Seq<crate::chemistry::Atom>,
    toks: Seq<TokV>,
    i: int,
    to: int,
    acc: Seq<(crate::chemistry::AtomV, int)>,
    charge: int,
) -> Result<(Seq<(crate::chemistry::AtomV, int)>, int), ParseErrV>
    decreases to - i,
        via spec_parse_loop_decreases
{
    if i < 0 || i >= to || to > toks.len() {
        Ok((acc, charge))
    } else {
        let t = toks[i];
        if t.kind == TokenType::Alphabetic {
            match crate::chemistry::spec_lookup(table, t.text) {
                None => Err(ParseErrV::UnknownElement { pos: t.pos, sym: t.text }),
                Some(atom) => {
                    if i + 1 < to && toks[i + 1].kind == TokenType::Numeric {
                        match spec_number(toks[i + 1].text) {
                            None => Err(ParseErrV::BadNumber { pos: toks[i + 1].pos }),
                            Some(v) => {
                                if v > u32::MAX {
                                    Err(ParseErrV::BadNumber { pos: toks[i + 1].pos })
                                } else if spec_merge_total(acc, atom@, v) > u32::MAX {
                                    Err(ParseErrV::BadNumber { pos: t.pos })
                                } else {
                                    spec_parse_loop(
                                        table,
                                        toks,
                                        i + 2,
                                        to,
                                        spec_merge(acc, atom@, v),
                                        charge,
                                    )
                                }
                            },
                        }
                    } else {
                        if spec_merge_total(acc, atom@, 1) > u32::MAX {
                            Err(ParseErrV::BadNumber { pos: t.pos })
                        } else {
                            spec_parse_loop(table, toks, i + 1, to, spec_merge(acc, atom@, 1), charge)
                        }
                    }
                },
            }
        } else if t.kind == TokenType::OpeningParenthesis || t.kind == TokenType::OpeningBracket {
            match spec_group_end(toks, i + 1, to, 1) {
                None => Err(ParseErrV::Unbalanced),
                Some(close) => {
                    let has_factor = close + 1 < to && toks[close + 1].kind == TokenType::Numeric;
                    let factor_res: Result<int, ParseErrV> = if has_factor {
                        match spec_number(toks[close + 1].text) {
                            None => Err(ParseErrV::BadNumber { pos: toks[close + 1].pos }),
                            Some(v) => if v > u32::MAX {
                                Err(ParseErrV::BadNumber { pos: toks[close + 1].pos })
                            } else {
                                Ok(v)
                            },
                        }
                    } else {
                        Ok(1)
                    };
                    match factor_res {
                        Err(e) => Err(e),
                        Ok(factor) => match spec_parse_loop(
                            table,
                            toks,
                            i + 1,
                            close,
                            Seq::empty(),
                            0,
                        ) {
                            Err(e) => Err(e),
                            Ok((sub_atoms, sub_charge)) => match spec_merge_scaled(
                                acc,
                                sub_atoms,
                                factor,
                                t.pos,
                            ) {
                                Err(e) => Err(e),
                                Ok(acc2) => {
                                    let scaled_charge = sub_charge * factor;
                                    if scaled_charge > i32::MAX || scaled_charge < i32::MIN {
                                        Err(ParseErrV::BadNumber { pos: t.pos })
                                    } else if charge + scaled_charge > i32::MAX || charge
                                        + scaled_charge < i32::MIN {
                                        Err(ParseErrV::BadNumber { pos: t.pos })
                                    } else {
                                        spec_parse_loop(
                                            table,
                                            toks,
                                            if has_factor {
                                                close + 2
                                            } else {
                                                close + 1
                                            },
                                            to,
                                            acc2,
                                            charge + scaled_charge,
                                        )
                                    }
                                },
                            },
                        },
                    }
                },
            }
        } else if t.kind == TokenType::Exponent {
            let sign1 = i + 1 < to && (toks[i + 1].kind == TokenType::Plus || toks[i + 1].kind
                == TokenType::Minus);
            let num2 = i + 2 < to && toks[i + 2].kind == TokenType::Numeric;
            let num1 = i + 1 < to && toks[i + 1].kind == TokenType::Numeric;
            let sign2 = i + 2 < to && (toks[i + 2].kind == TokenType::Plus || toks[i + 2].kind
                == TokenType::Minus);
            if sign1 && num2 {
                match spec_number(toks[i + 2].text) {
                    None => Err(ParseErrV::BadNumber { pos: toks[i + 2].pos }),
                    Some(v) => {
                        if v > i32::MAX {
                            Err(ParseErrV::BadNumber { pos: toks[i + 2].pos })
                        } else {
                            let delta = if toks[i + 1].kind == TokenType::Plus {
                                v
                            } else {
                                -v
                            };
                            if charge + delta > i32::MAX || charge + delta < i32::MIN {
                                Err(ParseErrV::BadNumber { pos: t.pos })
                            } else {
                                spec_parse_loop(table, toks, i + 3, to, acc, charge + delta)
                            }
                        }
                    },
                }
            } else if num1 && sign2 {
                match spec_number(toks[i + 1].text) {
                    None => Err(ParseErrV::BadNumber { pos: toks[i + 1].pos }),
                    Some(v) => {
                        if v > i32::MAX {
                            Err(ParseErrV::BadNumber { pos: toks[i + 1].pos })
                        } else {
                            let delta = if toks[i + 2].kind == TokenType::Plus {
                                v
                            } else {
                                -v
                            };
                            if charge + delta > i32::MAX || charge + delta < i32::MIN {
                                Err(ParseErrV::BadNumber { pos: t.pos })
                            } else {
                                spec_parse_loop(table, toks, i + 3, to, acc, charge + delta)
                            }
                        }
                    },
                }
            } else if sign1 {
                let delta: int = if toks[i + 1].kind == TokenType::Plus {
                    1
                } else {
                    -1
                };
                if charge + delta > i32::MAX || charge + delta < i32::MIN {
                    Err(ParseErrV::BadNumber { pos: t.pos })
                } else {
                    spec_parse_loop(table, toks, i + 2, to, acc, charge + delta)
                }
            } else {
                Err(ParseErrV::ChargeFormat { pos: t.pos })
            }
        } else {
            Err(ParseErrV::Unexpected { pos: t.pos, text: t.text })
        }
    }
}

/// If `atoms_seq` already has an entry for `atom`, increments it by `coef`;
/// else appends a new entry (unless `coef` is zero, which is never stored).
/// Returns `false`, leaving the list unchanged, when the merged count would
/// leave `u32`.
#[verifier::loop_isolation(false)]
fn merge_atom_into_seq(
    atoms_seq: &mut Vec<(crate::chemistry::Atom, u32)>,
    atom: crate::chemistry::Atom,
    coef: u32,
) -> (ok: bool)
    ensures
        ok <==> spec_merge_total(
            crate::chemistry::entries_view(old(atoms_seq)@),
            atom@,
            coef as int,
        ) <= u32::MAX,
        ok ==> crate::chemistry::entries_view(final(atoms_seq)@) == spec_merge(
            crate::chemistry::entries_view(old(atoms_seq)@),
            atom@,
            coef as int,
        ),
        !ok ==> final(atoms_seq)@ == old(atoms_seq)@,
{
    broadcast use crate::chemistry::lemma_entries_view_index;

    let ghost ev = crate::chemistry::entries_view(atoms_seq@);
    let mut idx: usize = 0;
    while idx < atoms_seq.len()
        invariant
            0 <= idx <= atoms_seq@.len(),
            atoms_seq@ == old(atoms_seq)@,
            ev == crate::chemistry::entries_view(atoms_seq@),
            ev.len() == atoms_seq@.len(),
            spec_find_key(ev, atom@, 0) == spec_find_key(ev, atom@, idx as int),
        decreases atoms_seq@.len() - idx,
    {
        if atoms_seq[idx].0 == atom {
            let cur = atoms_seq[idx].1;
            match cur.checked_add(coef) {
                Some(nc) => {
                    atoms_seq[idx] = (atom, nc);
                    proof {
                        assert(crate::chemistry::entries_view(atoms_seq@) =~= ev.update(
                            idx as int,
                            (ev[idx as int].0, ev[idx as int].1 + coef),
                        ));
                    }
                    return true;
                },
                None => {
                    return false;
                },
            }
        }
        idx = idx + 1;
    }
    if coef == 0 {
        proof {
            assert(crate::chemistry::entries_view(atoms_seq@) =~= ev);
        }
        return true;
    }
    // insert the new entry at its canonical (sorted) position
    let mut pos: usize = 0;
    while pos < atoms_seq.len()
        invariant
            0 <= pos <= atoms_seq@.len(),
            atoms_seq@ == old(atoms_seq)@,
            ev == crate::chemistry::entries_view(atoms_seq@),
            ev.len() == atoms_seq@.len(),
            spec_insert_at(ev, atom@, 0) == spec_insert_at(ev, atom@, pos as int),
        decreases atoms_seq@.len() - pos,
    {
        if atom_lt(&atom, &atoms_seq[pos].0) {
            proof {
                assert(spec_atom_lt(atom@, ev[pos as int].0));
            }
            break ;
        }
        pos = pos + 1;
    }
    proof {
        assert(pos as int == spec_insert_at(ev, atom@, 0));
    }
    let ghost before = crate::chemistry::entries_view(atoms_seq@);
    atoms_seq.insert(pos, (atom, coef));
    proof {
        before.insert_ensures(pos as int, (atom@, coef as int));
        assert forall|t: int|
            0 <= t < crate::chemistry::entries_view(atoms_seq@).len() implies #[trigger] crate::chemistry::entries_view(
            atoms_seq@,
        )[t] == before.insert(pos as int, (atom@, coef as int))[t] by {
            if t < pos {
                assert(atoms_seq@[t] == old(atoms_seq)@[t]);
            } else if t == pos {
            } else {
                assert(atoms_seq@[t] == old(atoms_seq)@[t - 1]);
            }
        }
        assert(crate::chemistry::entries_view(atoms_seq@) =~= before.insert(
            pos as int,
            (atom@, coef as int),
        ));
    }
    true
}

/// Index of the token closing the group opened just before `start`, if any.
#[verifier::loop_isolation(false)]
fn find_group_end(tokens: &Vec<Token>, start: usize, to: usize) -> (r: Option<usize>)
    requires
        start <= to <= tokens@.len(),
    ensures
        match r {
            Some(c) => spec_group_end(toks_view(tokens@), start as int, to as int, 1) == Some(
                c as int,
            ) && start <= c < to,
            None => spec_group_end(toks_view(tokens@), start as int, to as int, 1) is None,
        },
{
    broadcast use lemma_toks_view_index;

    let ghost tv = toks_view(tokens@);
    let mut j: usize = start;
    let mut depth: u128 = 1;
    while j < to
        invariant
            start <= j <= to,
            depth >= 1,
            depth <= 1 + (j - start),
            spec_group_end(tv, j as int, to as int, depth as int) == spec_group_end(
                tv,
                start as int,
                to as int,
                1,
            ),
        decreases to - j,
    {
        let kind = tokens[j].1;
        if kind == TokenType::OpeningParenthesis || kind == TokenType::OpeningBracket {
            depth = depth + 1;
        } else if kind == TokenType::ClosingParenthesis || kind == TokenType::ClosingBracket {
            if depth == 1 {
                return Some(j);
            }
            depth = depth - 1;
        }
        j = j + 1;
    }
    None
}

/// Parses an atom sequence over the token span `[from, to)`: the body of a
/// molecule or of a parenthesized group.  Returns the accumulated atom-count
/// list and net charge.
#[verifier::loop_isolation(false)]
#[verifier::rlimit(100)]
fn parse_atoms_seq(
    atoms: &crate::chemistry::PeriodicTable,
    tokens: &Vec<Token>,
    from: usize,
    to: usize,
) -> (r: Result<(Vec<(crate::chemistry::Atom, u32)>, i32), PositionedError>)
    requires
        from <= to <= tokens@.len(),
    ensures
        ({
            let out = spec_parse_loop(
                atoms.entries@,
                toks_view(tokens@),
                from as int,
                to as int,
                Seq::empty(),
                0,
            );
            match r {
                Ok(p) => {
                    &&& out matches Ok(q)
                    &&& crate::chemistry::entries_view(p.0@) == q.0
                    &&& p.1 as int == q.1
                },
                Err(e) => (out matches Err(pe) && e.0@ == parse_err_msg(pe) && (match parse_err_pos(
                    pe,
                ) {
                    Some(p) => e.1 matches Some(q) && q as int == p,
                    None => e.1 is None,
                })),
            }
        }),
    decreases to - from,
{
    broadcast use lemma_toks_view_index, crate::chemistry::lemma_entries_view_index;

    let ghost tv = toks_view(tokens@);
    let ghost table = atoms.entries@;
    let ghost goal = spec_parse_loop(table, tv, from as int, to as int, Seq::empty(), 0);
    let mut acc: Vec<(crate::chemistry::Atom, u32)> = Vec::new();
    let mut charge: i32 = 0;
    let mut i: usize = from;
    proof {
        assert(crate::chemistry::entries_view(acc@) =~= Seq::empty());
    }
    while i < to
        invariant
            from <= i <= to,
            spec_parse_loop(
                table,
                tv,
                i as int,
                to as int,
                crate::chemistry::entries_view(acc@),
                charge as int,
            ) == goal,
        decreases to - i,
    {
        let ghost accv = crate::chemistry::entries_view(acc@);
        let kind = tokens[i].1;
        if kind == TokenType::Alphabetic {
            let found = atoms.lookup(&tokens[i].0);
            match found {
                None => {
                    return Err(
                        PositionedError(
                            msg_with_token("unknown element: ", &tokens[i].0),
                            Some(tokens[i].2),
                        ),
                    );
                },
                Some(atom_ref) => {
                    let atom = atom_ref.clone();
                    let mut coef: u32 = 1;
                    let mut step: usize = 1;
                    if i + 1 < to && tokens[i + 1].1 == TokenType::Numeric {
                        match parse_number_u32(tokens[i + 1].0.as_str()) {
                            None => {
                                return Err(
                                    positioned_of_parse_err(
                                        "number out of range",
                                        Some(tokens[i + 1].2),
                                    ),
                                );
                            },
                            Some(v) => {
                                coef = v;
                                step = 2;
                            },
                        }
                    }
                    if !merge_atom_into_seq(&mut acc, atom, coef) {
                        return Err(
                            positioned_of_parse_err("number out of range", Some(tokens[i].2)),
                        );
                    }
                    i = i + step;
                },
            }
        } else if kind == TokenType::OpeningParenthesis || kind == TokenType::OpeningBracket {
            let close = match find_group_end(tokens, i + 1, to) {
                None => {
                    return Err(positioned_of_parse_err("unbalanced parentheses", None));
                },
                Some(c) => c,
            };
            let mut factor: u32 = 1;
            let mut next: usize = close + 1;
            if close + 1 < to && tokens[close + 1].1 == TokenType::Numeric {
                match parse_number_u32(tokens[close + 1].0.as_str()) {
                    None => {
                        return Err(
                            positioned_of_parse_err(
                                "number out of range",
                                Some(tokens[close + 1].2),
                            ),
                        );
                    },
                    Some(v) => {
                        factor = v;
                        next = close + 2;
                    },
                }
            }
            let (sub_vec, sub_charge) = match parse_atoms_seq(atoms, tokens, i + 1, close) {
                Err(e) => {
                    return Err(e);
                },
                Ok(p) => p,
            };
            // merge the sub-group, each count scaled by the multiplier
            let ghost subv = crate::chemistry::entries_view(sub_vec@);
            let ghost gpos = tv[i as int].pos;
            proof {
                assert(subv.skip(0) =~= subv);
            }
            let mut t: usize = 0;
            while t < sub_vec.len()
                invariant
                    0 <= t <= sub_vec@.len(),
                    subv == crate::chemistry::entries_view(sub_vec@),
                    subv.len() == sub_vec@.len(),
                    gpos == tv[i as int].pos,
                    i < to,
                    spec_merge_scaled(
                        crate::chemistry::entries_view(acc@),
                        subv.skip(t as int),
                        factor as int,
                        gpos,
                    ) == spec_merge_scaled(accv, subv, factor as int, gpos),
                decreases sub_vec@.len() - t,
            {
                proof {
                    assert(subv.skip(t as int).drop_first() =~= subv.skip(t + 1));
                    assert(subv.skip(t as int)[0] == subv[t as int]);
                }
                let count = sub_vec[t].1;
                proof {
                    assert((count as u64) * (factor as u64) <= 0xffff_ffffu64
                        * 0xffff_ffffu64) by (nonlinear_arith)
                        requires
                            count as u64 <= 0xffff_ffffu64 && factor as u64 <= 0xffff_ffffu64,
                    ;
                }
                let scaled: u64 = (count as u64) * (factor as u64);
                if scaled > u32::MAX as u64 {
                    return Err(positioned_of_parse_err("number out of range", Some(tokens[i].2)));
                }
                let sub_atom = sub_vec[t].0.clone();
                if !merge_atom_into_seq(&mut acc, sub_atom, scaled as u32) {
                    return Err(positioned_of_parse_err("number out of range", Some(tokens[i].2)));
                }
                t = t + 1;
            }
            proof {
                assert(subv.skip(subv.len() as int) =~= Seq::<(crate::chemistry::AtomV, int)>::empty());
            }
            proof {
                assert(-0x8000_0000i64 * 0xffff_ffffi64 <= (sub_charge as i64) * (factor as i64)
                    <= 0x8000_0000i64 * 0xffff_ffffi64) by (nonlinear_arith)
                    requires
                        -0x8000_0000i64 <= sub_charge as i64 <= 0x8000_0000i64 && 0
                            <= factor as i64 <= 0xffff_ffffi64,
                ;
            }
            let scaled_charge: i64 = (sub_charge as i64) * (factor as i64);
            if scaled_charge > i32::MAX as i64 || scaled_charge < i32::MIN as i64 {
                return Err(positioned_of_parse_err("number out of range", Some(tokens[i].2)));
            }
            let new_charge: i64 = (charge as i64) + scaled_charge;
            if new_charge > i32::MAX as i64 || new_charge < i32::MIN as i64 {
                return Err(positioned_of_parse_err("number out of range", Some(tokens[i].2)));
            }
            charge = new_charge as i32;
            i = next;
        } else if kind == TokenType::Exponent {
            let sign1 = i + 1 < to && (tokens[i + 1].1 == TokenType::Plus || tokens[i + 1].1
                == TokenType::Minus);
            let num2 = sign1 && i + 2 < to && tokens[i + 2].1 == TokenType::Numeric;
            let num1 = i + 1 < to && tokens[i + 1].1 == TokenType::Numeric;
            let sign2 = num1 && i + 2 < to && (tokens[i + 2].1 == TokenType::Plus || tokens[i
                + 2].1 == TokenType::Minus);
            if sign1 && num2 {
                let v = match parse_number_u64(tokens[i + 2].0.as_str()) {
                    None => {
                        return Err(
                            positioned_of_parse_err("number out of range", Some(tokens[i + 2].2)),
                        );
                    },
                    Some(v) => v,
                };
                if v > i32::MAX as u64 {
                    return Err(
                        positioned_of_parse_err("number out of range", Some(tokens[i + 2].2)),
                    );
                }
                let delta: i64 = if tokens[i + 1].1 == TokenType::Plus {
                    v as i64
                } else {
                    -(v as i64)
                };
                let nc: i64 = (charge as i64) + delta;
                if nc > i32::MAX as i64 || nc < i32::MIN as i64 {
                    return Err(positioned_of_parse_err("number out of range", Some(tokens[i].2)));
                }
                charge = nc as i32;
                i = i + 3;
            } else if num1 && sign2 {
                let v = match parse_number_u64(tokens[i + 1].0.as_str()) {
                    None => {
                        return Err(
                            positioned_of_parse_err("number out of range", Some(tokens[i + 1].2)),
                        );
                    },
                    Some(v) => v,
                };
                if v > i32::MAX as u64 {
                    return Err(
                        positioned_of_parse_err("number out of range", Some(tokens[i + 1].2)),
                    );
                }
                let delta: i64 = if tokens[i + 2].1 == TokenType::Plus {
                    v as i64
                } else {
                    -(v as i64)
                };
                let nc: i64 = (charge as i64) + delta;
                if nc > i32::MAX as i64 || nc < i32::MIN as i64 {
                    return Err(positioned_of_parse_err("number out of range", Some(tokens[i].2)));
                }
                charge = nc as i32;
                i = i + 3;
            } else if sign1 {
                let delta: i64 = if tokens[i + 1].1 == TokenType::Plus {
                    1
                } else {
                    -1
                };
                let nc: i64 = (charge as i64) + delta;
                if nc > i32::MAX as i64 || nc < i32::MIN as i64 {
                    return Err(positioned_of_parse_err("number out of range", Some(tokens[i].2)));
                }
                charge = nc as i32;
                i = i + 2;
            } else {
                return Err(
                    positioned_of_parse_err(
                        "charge format error, expected '^<charge><+/->' or '^<+/-><charge>'",
                        Some(tokens[i].2),
                    ),
                );
            }
        } else {
            return Err(
                PositionedError(
                    msg_with_token("unexpected token: ", &tokens[i].0),
                    Some(tokens[i].2),
                ),
            );
        }
    }
    Ok((acc, charge))
}

/// The concatenated texts of a token span, used as the preserved display
/// form of a parsed molecule.
#[verifier::loop_isolation(false)]
fn concat_token_texts(tokens: &Vec<Token>) -> (r: String)
    ensures
        r@ == concat_texts(toks_view(tokens@)),
{
    broadcast use lemma_toks_view_index;

    let ghost tv = toks_view(tokens@);
    let mut out = String::new();
    let mut i: usize = 0;
    while i < tokens.len()
        invariant
            0 <= i <= tokens@.len(),
            tv == toks_view(tokens@),
            tv.len() == tokens@.len(),
            out@ == concat_texts(tv.take(i as int)),
        decreases tokens@.len() - i,
    {
        proof {
            assert(tv.take(i + 1).drop_last() =~= tv.take(i as int));
            assert(tv.take(i + 1).last() == tv[i as int]);
        }
        out.append(tokens[i].0.as_str());
        i = i + 1;
    }
    proof {
        assert(tv.take(tv.len() as int) =~= tv);
    }
    out
}

/// Parses a molecule from a token span: structural validation first (for
/// precise early diagnostics), then the recursive formula scan.  The
/// original text of the tokens is attached as the display form.
pub fn parse_molecule(
    atoms: &crate::chemistry::PeriodicTable,
    tokens: &Vec<Token>,
) -> (r: Result<crate::chemistry::Molecule, PositionedError>)
    ensures
        ({
            let tv = toks_view(tokens@);
            let chk = spec_check(tv, Seq::empty());
            let out = spec_parse_loop(atoms.entries@, tv, 0, tv.len() as int, Seq::empty(), 0);
            match r {
                Ok(m) => {
                    &&& chk is None
                    &&& out matches Ok(p)
                    &&& m@.atoms == p.0
                    &&& m@.charge == p.1
                    &&& m@.string_repr == Some(concat_texts(tv))
                    &&& entries_sorted(m@.atoms)
                },
                Err(e) => {
                    &&& (chk is Some || out is Err)
                    &&& (chk matches Some(ce) ==> e.0@ == check_err_msg(ce) && (e.1 matches Some(
                        q,
                    ) && q as int == check_err_pos(ce)))
                    &&& (chk is None ==> (out matches Err(pe) && e.0@ == parse_err_msg(pe)
                        && (match parse_err_pos(pe) {
                        Some(p) => e.1 matches Some(q) && q as int == p,
                        None => e.1 is None,
                    })))
                },
            }
        }),
{
    proof {
        lemma_parse_loop_sorted(
            atoms.entries@,
            toks_view(tokens@),
            0,
            toks_view(tokens@).len() as int,
            Seq::empty(),
            0,
        );
    }
    match check_token_seq(tokens) {
        Ok(()) => {
            match parse_atoms_seq(atoms, tokens, 0, tokens.len()) {
                Ok((atoms_seq, charge)) => {
                    let repr = concat_token_texts(tokens);
                    Ok(
                        crate::chemistry::Molecule {
                            atoms: atoms_seq,
                            charge,
                            string_repr: Some(repr),
                        },
                    )
                },
                Err(err) => Err(err),
            }
        },
        Err(err) => Err(err),
    }
}

proof fn lemma_merge_scaled_sorted(
    acc: Seq<(crate::chemistry::AtomV, int)>,
    sub: Seq<(crate::chemistry::AtomV, int)>,
    factor: int,
    pos: int,
)
    requires
        entries_sorted(acc),
    ensures
        spec_merge_scaled(acc, sub, factor, pos) matches Ok(a2) ==> entries_sorted(a2),
    decreases sub.len(),
{
    if sub.len() > 0 {
        let sc = sub[0].1 * factor;
        if sc <= u32::MAX && spec_merge_total(acc, sub[0].0, sc) <= u32::MAX {
            lemma_merge_sorted(acc, sub[0].0, sc);
            lemma_merge_scaled_sorted(
                spec_merge(acc, sub[0].0, sc),
                sub.drop_first(),
                factor,
                pos,
            );
        }
    }
}

/// The formula scan only merges entries, so a sorted accumulator yields a
/// sorted result.
proof fn lemma_parse_loop_sorted(
    table: Seq<crate::chemistry::Atom>,
    toks: Seq<TokV>,
    i: int,
    to: int,
    acc: Seq<(crate::chemistry::AtomV, int)>,
    charge: int,
)
    requires
        entries_sorted(acc),
    ensures
        spec_parse_loop(table, toks, i, to, acc, charge) matches Ok(p) ==> entries_sorted(p.0),
    decreases to - i,
{
    if i < 0 || i >= to || to > toks.len() {
    } else {
        let t = toks[i];
        if t.kind == TokenType::Alphabetic {
            match crate::chemistry::spec_lookup(table, t.text) {
                None => {},
                Some(atom) => {
                    if i + 1 < to && toks[i + 1].kind == TokenType::Numeric {
                        match spec_number(toks[i + 1].text) {
                            None => {},
                            Some(v) => {
                                if v <= u32::MAX && spec_merge_total(acc, atom@, v)
                                    <= u32::MAX {
                                    lemma_merge_sorted(acc, atom@, v);
                                    lemma_parse_loop_sorted(
                                        table,
                                        toks,
                                        i + 2,
                                        to,
                                        spec_merge(acc, atom@, v),
                                        charge,
                                    );
                                }
                            },
                        }
                    } else {
                        if spec_merge_total(acc, atom@, 1) <= u32::MAX {
                            lemma_merge_sorted(acc, atom@, 1);
                            lemma_parse_loop_sorted(
                                table,
                                toks,
                                i + 1,
                                to,
                                spec_merge(acc, atom@, 1),
                                charge,
                            );
                        }
                    }
                },
            }
        } else if t.kind == TokenType::OpeningParenthesis || t.kind
            == TokenType::OpeningBracket {
            match spec_group_end(toks, i + 1, to, 1) {
                None => {},
                Some(close) => {
                    lemma_group_end_bounds(toks, i + 1, to, 1);
                    let has_factor = close + 1 < to && toks[close + 1].kind
                        == TokenType::Numeric;
                    let factor_res: Result<int, ParseErrV> = if has_factor {
                        match spec_number(toks[close + 1].text) {
                            None => Err(ParseErrV::BadNumber { pos: toks[close + 1].pos }),
                            Some(v) => if v > u32::MAX {
                                Err(ParseErrV::BadNumber { pos: toks[close + 1].pos })
                            } else {
                                Ok(v)
                            },
                        }
                    } else {
                        Ok(1)
                    };
                    match factor_res {
                        Err(_) => {},
                        Ok(factor) => {
                            lemma_parse_loop_sorted(
                                table,
                                toks,
                                i + 1,
                                close,
                                Seq::empty(),
                                0,
                            );
                            match spec_parse_loop(table, toks, i + 1, close, Seq::empty(), 0) {
                                Err(_) => {},
                                Ok(sub) => {
                                    lemma_merge_scaled_sorted(acc, sub.0, factor, t.pos);
                                    match spec_merge_scaled(acc, sub.0, factor, t.pos) {
                                        Err(_) => {},
                                        Ok(acc2) => {
                                            let scaled_charge = sub.1 * factor;
                                            if i32::MIN <= scaled_charge <= i32::MAX
                                                && i32::MIN <= charge + scaled_charge
                                                <= i32::MAX {
                                                lemma_parse_loop_sorted(
                                                    table,
                                                    toks,
                                                    if has_factor {
                                                        close + 2
                                                    } else {
                                                        close + 1
                                                    },
                                                    to,
                                                    acc2,
                                                    charge + scaled_charge,
                                                );
                                            }
                                        },
                                    }
                                },
                            }
                        },
                    }
                },
            }
        } else if t.kind == TokenType::Exponent {
            let sign1 = i + 1 < to && (toks[i + 1].kind == TokenType::Plus || toks[i + 1].kind
                == TokenType::Minus);
            let num2 = i + 2 < to && toks[i + 2].kind == TokenType::Numeric;
            let num1 = i + 1 < to && toks[i + 1].kind == TokenType::Numeric;
            let sign2 = i + 2 < to && (toks[i + 2].kind == TokenType::Plus || toks[i + 2].kind
                == TokenType::Minus);
            if sign1 && num2 {
                match spec_number(toks[i + 2].text) {
                    None => {},
                    Some(v) => {
                        if v <= i32::MAX {
                            let delta = if toks[i + 1].kind == TokenType::Plus {
                                v
                            } else {
                                -v
                            };
                            if i32::MIN <= charge + delta <= i32::MAX {
                                lemma_parse_loop_sorted(
                                    table,
                                    toks,
                                    i + 3,
                                    to,
                                    acc,
                                    charge + delta,
                                );
                            }
                        }
                    },
                }
            } else if num1 && sign2 {
                match spec_number(toks[i + 1].text) {
                    None => {},
                    Some(v) => {
                        if v <= i32::MAX {
                            let delta = if toks[i + 2].kind == TokenType::Plus {
                                v
                            } else {
                                -v
                            };
                            if i32::MIN <= charge + delta <= i32::MAX {
                                lemma_parse_loop_sorted(
                                    table,
                                    toks,
                                    i + 3,
                                    to,
                                    acc,
                                    charge + delta,
                                );
                            }
                        }
                    },
                }
            } else if sign1 {
                let delta: int = if toks[i + 1].kind == TokenType::Plus {
                    1
                } else {
                    -1
                };
                if i32::MIN <= charge + delta <= i32::MAX {
                    lemma_parse_loop_sorted(table, toks, i + 2, to, acc, charge + delta);
                }
            }
        }
    }
}

/// Parsed molecules carry their atom entries in canonical (ascending) atom
/// order: by symbol, then name, then mass.
pub proof fn lemma_parse_molecule_sorted(table: Seq<crate::chemistry::Atom>, toks: Seq<TokV>)
    ensures
        spec_parse_molecule(table, toks) matches Ok(m) ==> entries_sorted(m.atoms),
{
    if spec_check(toks, Seq::empty()) is None {
        lemma_parse_loop_sorted(table, toks, 0, toks.len() as int, Seq::empty(), 0);
    }
}

/// The outcome of parsing one molecule from a token span: structural
/// validation first, then the formula scan, with the concatenated token
/// texts attached as the display form on success.
pub open spec fn spec_parse_molecule(
    table: Seq<crate::chemistry::Atom>,
    toks: Seq<TokV>,
) -> Result<crate::chemistry::MolV, MolErr> {
    match spec_check(toks, Seq::empty()) {
        Some(ce) => Err(MolErr::Structure(ce)),
        None => match spec_parse_loop(table, toks, 0, toks.len() as int, Seq::empty(), 0) {
            Err(pe) => Err(MolErr::Formula(pe)),
            Ok(p) => Ok(
                crate::chemistry::MolV {
                    atoms: p.0,
                    charge: p.1,
                    string_repr: Some(concat_texts(toks)),
                },
            ),
        },
    }
}

/// A molecule-level parse failure: a structural violation or a semantic one.
pub ghost enum MolErr {
    Structure(CheckErr),
    Formula(ParseErrV),
}

/// The splitting of one equation member into molecules: whitespace dropped,
/// '+' ends the pending molecule unless a charge marker announced it, and
/// the pending molecule is parsed when the member ends.
pub open spec fn spec_member_loop(
    table: Seq<crate::chemistry::Atom>,
    toks: Seq<TokV>,
    i: int,
    acc: Seq<TokV>,
    expect_sign: bool,
    mols: Seq<crate::chemistry::MolV>,
) -> Result<Seq<crate::chemistry::MolV>, MolErr>
    decreases toks.len() - i,
{
    if i < 0 || i >= toks.len() {
        match spec_parse_molecule(table, acc) {
            Err(e) => Err(e),
            Ok(m) => Ok(mols.push(m)),
        }
    } else {
        let t = toks[i];
        if t.kind == TokenType::Whitespace {
            spec_member_loop(table, toks, i + 1, acc, expect_sign, mols)
        } else if t.kind == TokenType::Exponent {
            spec_member_loop(table, toks, i + 1, acc.push(t), true, mols)
        } else if t.kind == TokenType::Plus {
            if expect_sign {
                spec_member_loop(table, toks, i + 1, acc.push(t), false, mols)
            } else {
                match spec_parse_molecule(table, acc) {
                    Err(e) => Err(e),
                    Ok(m) => spec_member_loop(table, toks, i + 1, Seq::empty(), false, mols.push(m)),
                }
            }
        } else if t.kind == TokenType::Minus {
            spec_member_loop(table, toks, i + 1, acc.push(t), false, mols)
        } else if t.kind == TokenType::NoType {
            Err(MolErr::Structure(CheckErr::Unrecognized { pos: t.pos, text: t.text }))
        } else if t.kind == TokenType::Arrow {
            Err(MolErr::Formula(ParseErrV::Unexpected { pos: t.pos, text: t.text }))
        } else {
            spec_member_loop(table, toks, i + 1, acc.push(t), expect_sign, mols)
        }
    }
}

/// The error value carries the message and offset of the spec-level
/// failure.
pub open spec fn mol_err_matches(e: PositionedError, me: MolErr) -> bool {
    match me {
        MolErr::Structure(ce) => e.0@ == check_err_msg(ce) && (e.1 matches Some(q) && q as int
            == check_err_pos(ce)),
        MolErr::Formula(pe) => e.0@ == parse_err_msg(pe) && (match parse_err_pos(pe) {
            Some(p) => e.1 matches Some(q) && q as int == p,
            None => e.1 is None,
        }),
    }
}

/// Tries to parse the molecule described by the tokens in
/// `acc_molec_tokens`, adds it to `molecules` and clears `acc_molec_tokens`.
fn terminate_molecule(
    periodic_table: &crate::chemistry::PeriodicTable,
    molecules: &mut Vec<crate::chemistry::Molecule>,
    acc_molec_tokens: &mut Vec<Token>,
) -> (r: Result<(), PositionedError>)
    ensures
        final(acc_molec_tokens)@.len() == 0,
        match spec_parse_molecule(periodic_table.entries@, toks_view(old(acc_molec_tokens)@)) {
            Ok(m) => r is Ok && crate::chemistry::mols_view(final(molecules)@)
                == crate::chemistry::mols_view(old(molecules)@).push(m),
            Err(me) => r matches Err(e) && mol_err_matches(e, me) && final(molecules)@ == old(
                molecules,
            )@,
        },
{
    broadcast use crate::chemistry::lemma_mols_view_index;

    let ghost tv = toks_view(acc_molec_tokens@);
    let parsed = parse_molecule(periodic_table, acc_molec_tokens);
    acc_molec_tokens.clear();
    match parsed {
        Ok(molecule) => {
            let ghost before = crate::chemistry::mols_view(molecules@);
            proof {
                assert(molecule@ == spec_parse_molecule(periodic_table.entries@, tv)->Ok_0);
            }
            molecules.push(molecule);
            proof {
                assert(crate::chemistry::mols_view(molecules@) =~= before.push(
                    spec_parse_molecule(periodic_table.entries@, tv)->Ok_0,
                ));
            }
            Ok(())
        },
        Err(err) => Err(err),
    }
}

/// Splits one member on '+' into molecule segments — a '+' that belongs to a
/// charge marker is kept with its molecule — and parses each segment.
#[verifier::loop_isolation(false)]
fn parse_raw_equation_member(
    periodic_table: &crate::chemistry::PeriodicTable,
    tokens: &Vec<Token>,
) -> (r: Result<Vec<crate::chemistry::Molecule>, PositionedError>)
    ensures
        ({
            let out = spec_member_loop(
                periodic_table.entries@,
                toks_view(tokens@),
                0,
                Seq::empty(),
                false,
                Seq::empty(),
            );
            match r {
                Ok(ms) => out matches Ok(mv) && crate::chemistry::mols_view(ms@) == mv,
                Err(e) => out matches Err(me) && mol_err_matches(e, me),
            }
        }),
{
    broadcast use lemma_toks_view_index, crate::chemistry::lemma_mols_view_index;

    let ghost tv = toks_view(tokens@);
    let ghost table = periodic_table.entries@;
    let ghost goal = spec_member_loop(table, tv, 0, Seq::empty(), false, Seq::empty());
    let mut molecules: Vec<crate::chemistry::Molecule> = Vec::new();
    let mut acc_molec_tokens: Vec<Token> = Vec::new();
    let mut expect_charge_plus_or_minus = false;
    let mut i: usize = 0;
    proof {
        assert(toks_view(acc_molec_tokens@) =~= Seq::<TokV>::empty());
        assert(crate::chemistry::mols_view(molecules@) =~= Seq::<
            crate::chemistry::MolV,
        >::empty());
    }
    while i < tokens.len()
        invariant
            0 <= i <= tokens@.len(),
            spec_member_loop(
                table,
                tv,
                i as int,
                toks_view(acc_molec_tokens@),
                expect_charge_plus_or_minus,
                crate::chemistry::mols_view(molecules@),
            ) == goal,
        decreases tokens@.len() - i,
    {
        let ghost acc0 = toks_view(acc_molec_tokens@);
        let kind = tokens[i].1;
        if kind == TokenType::Whitespace {
            // offsets stay accurate, the token itself is dropped
        } else if kind == TokenType::Exponent {
            expect_charge_plus_or_minus = true;
            acc_molec_tokens.push(tokens[i].clone());
            proof {
                assert(toks_view(acc_molec_tokens@) =~= acc0.push(tv[i as int]));
            }
        } else if kind == TokenType::Plus {
            if expect_charge_plus_or_minus {
                expect_charge_plus_or_minus = false;
                acc_molec_tokens.push(tokens[i].clone());
                proof {
                    assert(toks_view(acc_molec_tokens@) =~= acc0.push(tv[i as int]));
                }
            } else {
                let status_res = terminate_molecule(
                    periodic_table,
                    &mut molecules,
                    &mut acc_molec_tokens,
                );
                if let Err(err) = status_res {
                    return Err(err);
                }
                proof {
                    assert(toks_view(acc_molec_tokens@) =~= Seq::<TokV>::empty());
                }
            }
        } else if kind == TokenType::Minus {
            if expect_charge_plus_or_minus {
                expect_charge_plus_or_minus = false;
            }
            acc_molec_tokens.push(tokens[i].clone());
            proof {
                assert(toks_view(acc_molec_tokens@) =~= acc0.push(tv[i as int]));
            }
        } else if kind == TokenType::NoType {
            return Err(
                PositionedError(
                    msg_with_token("unrecognized token: ", &tokens[i].0),
                    Some(tokens[i].2),
                ),
            );
        } else if kind == TokenType::Arrow {
            return Err(
                PositionedError(
                    msg_with_token("unexpected token: ", &tokens[i].0),
                    Some(tokens[i].2),
                ),
            );
        } else {
            acc_molec_tokens.push(tokens[i].clone());
            proof {
                assert(toks_view(acc_molec_tokens@) =~= acc0.push(tv[i as int]));
            }
        }
        i = i + 1;
    }
    let status_res = terminate_molecule(periodic_table, &mut molecules, &mut acc_molec_tokens);
    if let Err(err) = status_res {
        Err(err)
    } else {
        Ok(molecules)
    }
}

/// The splitting of an equation on its arrow: member 0 before, member 1
/// after; more than two members is an error at the offending token's
/// offset.  The first arrow's literal text is preserved.
pub open spec fn spec_split(
    toks: Seq<TokV>,
    i: int,
    idx: int,
    lhs: Seq<TokV>,
    rhs: Seq<TokV>,
    arrow: Seq<char>,
) -> Result<(Seq<TokV>, Seq<TokV>, Seq<char>, int), int>
    decreases toks.len() - i,
{
    if i < 0 || i >= toks.len() {
        Ok((lhs, rhs, arrow, idx))
    } else {
        let t = toks[i];
        if t.kind == TokenType::Arrow {
            spec_split(
                toks,
                i + 1,
                idx + 1,
                lhs,
                rhs,
                if idx == 0 {
                    t.text
                } else {
                    arrow
                },
            )
        } else if idx == 0 {
            spec_split(toks, i + 1, idx, lhs.push(t), rhs, arrow)
        } else if idx == 1 {
            spec_split(toks, i + 1, idx, lhs, rhs.push(t), arrow)
        } else {
            Err(t.pos)
        }
    }
}

/// Parses a raw (quantity-free) equation: split on the single arrow into
/// exactly two members, and parse each member's molecules.
#[verifier::loop_isolation(false)]
pub fn parse_raw_equation(
    periodic_table: &crate::chemistry::PeriodicTable,
    tokens: &Vec<Token>,
) -> (r: Result<crate::chemistry::RawEquation, PositionedError>)
    ensures
        ({
            let table = periodic_table.entries@;
            let tv = toks_view(tokens@);
            match spec_split(tv, 0, 0, Seq::empty(), Seq::empty(), Seq::empty()) {
                Err(pos) => r matches Err(e) && e.0@ == "more than 2 members in equation"@ && (
                e.1 matches Some(q) && q as int == pos),
                Ok(sp) => {
                    if sp.3 != 1 {
                        r matches Err(e) && e.0@ == "an equation must have exactly 2 members"@
                            && e.1 is None
                    } else {
                        match (
                            spec_member_loop(table, sp.0, 0, Seq::empty(), false, Seq::empty()),
                            spec_member_loop(table, sp.1, 0, Seq::empty(), false, Seq::empty()),
                        ) {
                            (Ok(lm), Ok(rm)) => r matches Ok(eq)
                                && crate::chemistry::mols_view(eq.lhs@) == lm
                                && crate::chemistry::mols_view(eq.rhs@) == rm && eq.arrow@
                                == sp.2,
                            (Err(me), _) => r matches Err(e) && mol_err_matches(e, me),
                            (Ok(_), Err(me)) => r matches Err(e) && mol_err_matches(e, me),
                        }
                    }
                },
            }
        }),
{
    broadcast use lemma_toks_view_index;

    let ghost tv = toks_view(tokens@);
    let ghost goal = spec_split(tv, 0, 0, Seq::empty(), Seq::empty(), Seq::empty());
    let mut lhs_tokens: Vec<Token> = Vec::new();
    let mut rhs_tokens: Vec<Token> = Vec::new();
    let mut arrow = String::new();
    let mut member_idx: usize = 0;
    let mut i: usize = 0;
    proof {
        assert(toks_view(lhs_tokens@) =~= Seq::<TokV>::empty());
        assert(toks_view(rhs_tokens@) =~= Seq::<TokV>::empty());
    }
    while i < tokens.len()
        invariant
            0 <= i <= tokens@.len(),
            member_idx <= i,
            spec_split(
                tv,
                i as int,
                member_idx as int,
                toks_view(lhs_tokens@),
                toks_view(rhs_tokens@),
                arrow@,
            ) == goal,
        decreases tokens@.len() - i,
    {
        let kind = tokens[i].1;
        if kind == TokenType::Arrow {
            if member_idx == 0 {
                arrow = tokens[i].0.clone();
            }
            member_idx = member_idx + 1;
        } else if member_idx == 0 {
            let ghost acc0 = toks_view(lhs_tokens@);
            lhs_tokens.push(tokens[i].clone());
            proof {
                assert(toks_view(lhs_tokens@) =~= acc0.push(tv[i as int]));
            }
        } else if member_idx == 1 {
            let ghost acc0 = toks_view(rhs_tokens@);
            rhs_tokens.push(tokens[i].clone());
            proof {
                assert(toks_view(rhs_tokens@) =~= acc0.push(tv[i as int]));
            }
        } else {
            return Err(
                PositionedError(
                    String::from_str("more than 2 members in equation"),
                    Some(tokens[i].2),
                ),
            );
        }
        i = i + 1;
    }
    if member_idx == 1 {
        let lhs = match parse_raw_equation_member(periodic_table, &lhs_tokens) {
            Ok(l) => l,
            Err(err) => {
                return Err(err);
            },
        };
        let rhs = match parse_raw_equation_member(periodic_table, &rhs_tokens) {
            Ok(rr) => rr,
            Err(err) => {
                return Err(err);
            },
        };
        Ok(crate::chemistry::RawEquation { lhs, rhs, arrow })
    } else {
        Err(PositionedError(String::from_str("an equation must have exactly 2 members"), None))
    }
}

/// Ten to the `k`.
pub open spec fn pow10(k: nat) -> int
    decreases k,
{
    if k == 0 {
        1
    } else {
        10 * pow10((k - 1) as nat)
    }
}

/// A quantified-segment parse failure.
pub ghost enum QErr {
    Mol(MolErr),
    QuantityFormat { pos: int },
    UnknownUnit { pos: int },
    BigNumber { pos: int },
}

/// The error value carries the message and offset of the spec-level
/// failure.
pub open spec fn q_err_matches(e: PositionedError, qe: QErr) -> bool {
    match qe {
        QErr::Mol(me) => mol_err_matches(e, me),
        QErr::QuantityFormat { pos } => e.0@ == "quantity format error, expected '<number> <unit>' before the formula"@
            && (e.1 matches Some(q) && q as int == pos),
        QErr::UnknownUnit { pos } => e.0@ == "unknown unit"@ && (e.1 matches Some(q) && q as int
            == pos),
        QErr::BigNumber { pos } => e.0@ == "number out of range"@ && (e.1 matches Some(q) && q
            as int == pos),
    }
}

/// One molecule segment with an optional quantity prefix of shape
/// `<digits>[.<digits>] <unit>`, unit one of g, mg, mol; the remainder of
/// the segment is the formula.
pub open spec fn spec_parse_quant_segment(
    table: Seq<crate::chemistry::Atom>,
    acc: Seq<TokV>,
) -> Result<(crate::chemistry::MolV, Option<crate::chemistry::QuantV>), QErr> {
    if acc.len() > 0 && acc[0].kind == TokenType::Numeric {
        let has_frac = acc.len() > 2 && acc[1].kind == TokenType::Dot && acc[2].kind
            == TokenType::Numeric;
        let unit_ix: int = if has_frac {
            3
        } else {
            1
        };
        match spec_number(acc[0].text) {
            None => Err(QErr::BigNumber { pos: acc[0].pos }),
            Some(ip) => {
                if ip > u64::MAX {
                    Err(QErr::BigNumber { pos: acc[0].pos })
                } else {
                    let frac_res: Result<(int, int), QErr> = if has_frac {
                        match spec_number(acc[2].text) {
                            None => Err(QErr::BigNumber { pos: acc[2].pos }),
                            Some(f) => if f > u64::MAX || acc[2].text.len() > 18 {
                                Err(QErr::BigNumber { pos: acc[2].pos })
                            } else {
                                Ok((f, pow10(acc[2].text.len())))
                            },
                        }
                    } else {
                        Ok((0, 1))
                    };
                    match frac_res {
                        Err(e) => Err(e),
                        Ok(fd) => {
                            let num = ip * fd.1 + fd.0;
                            if num > i64::MAX {
                                Err(QErr::BigNumber { pos: acc[0].pos })
                            } else if unit_ix >= acc.len() || acc[unit_ix].kind
                                != TokenType::Alphabetic {
                                Err(QErr::QuantityFormat { pos: acc[0].pos })
                            } else {
                                let ut = acc[unit_ix].text;
                                let unit_res: Result<crate::chemistry::ChemUnit, QErr> = if ut
                                    == "g"@ {
                                    Ok(crate::chemistry::ChemUnit::Gram)
                                } else if ut == "mg"@ {
                                    Ok(crate::chemistry::ChemUnit::Milligram)
                                } else if ut == "mol"@ {
                                    Ok(crate::chemistry::ChemUnit::Mol)
                                } else {
                                    Err(QErr::UnknownUnit { pos: acc[unit_ix].pos })
                                };
                                match unit_res {
                                    Err(e) => Err(e),
                                    Ok(unit) => match spec_parse_molecule(
                                        table,
                                        acc.skip(unit_ix + 1),
                                    ) {
                                        Err(me) => Err(QErr::Mol(me)),
                                        Ok(m) => Ok(
                                            (
                                                m,
                                                Some(
                                                    crate::chemistry::QuantV {
                                                        num,
                                                        den: fd.1,
                                                        unit,
                                                    },
                                                ),
                                            ),
                                        ),
                                    },
                                }
                            }
                        },
                    }
                }
            },
        }
    } else {
        match spec_parse_molecule(table, acc) {
            Err(me) => Err(QErr::Mol(me)),
            Ok(m) => Ok((m, None)),
        }
    }
}

/// Member splitting for a quantified equation: as for a raw member, but each
/// segment may begin with a quantity prefix.
pub open spec fn spec_quant_member_loop(
    table: Seq<crate::chemistry::Atom>,
    toks: Seq<TokV>,
    i: int,
    acc: Seq<TokV>,
    expect_sign: bool,
    out: Seq<(crate::chemistry::MolV, Option<crate::chemistry::QuantV>)>,
) -> Result<Seq<(crate::chemistry::MolV, Option<crate::chemistry::QuantV>)>, QErr>
    decreases toks.len() - i,
{
    if i < 0 || i >= toks.len() {
        match spec_parse_quant_segment(table, acc) {
            Err(e) => Err(e),
            Ok(p) => Ok(out.push(p)),
        }
    } else {
        let t = toks[i];
        if t.kind == TokenType::Whitespace {
            spec_quant_member_loop(table, toks, i + 1, acc, expect_sign, out)
        } else if t.kind == TokenType::Exponent {
            spec_quant_member_loop(table, toks, i + 1, acc.push(t), true, out)
        } else if t.kind == TokenType::Plus {
            if expect_sign {
                spec_quant_member_loop(table, toks, i + 1, acc.push(t), false, out)
            } else {
                match spec_parse_quant_segment(table, acc) {
                    Err(e) => Err(e),
                    Ok(p) => spec_quant_member_loop(
                        table,
                        toks,
                        i + 1,
                        Seq::empty(),
                        false,
                        out.push(p),
                    ),
                }
            }
        } else if t.kind == TokenType::Minus {
            spec_quant_member_loop(table, toks, i + 1, acc.push(t), false, out)
        } else if t.kind == TokenType::NoType {
            Err(QErr::Mol(MolErr::Structure(CheckErr::Unrecognized { pos: t.pos, text: t.text })))
        } else if t.kind == TokenType::Arrow {
            Err(QErr::Mol(MolErr::Formula(ParseErrV::Unexpected { pos: t.pos, text: t.text })))
        } else {
            spec_quant_member_loop(table, toks, i + 1, acc.push(t), expect_sign, out)
        }
    }
}

/// Ten to the `k`, for a fraction of at most 18 digits.
fn pow10_exec(k: usize) -> (r: u64)
    requires
        k <= 18,
    ensures
        r as int == pow10(k as nat),
        1 <= r <= 0xde0_b6b3_a764_0000u64,
{
    let mut acc: u64 = 1;
    let mut i: usize = 0;
    while i < k
        invariant
            0 <= i <= k <= 18,
            acc as int == pow10(i as nat),
            1 <= acc <= 0xde0_b6b3_a764_0000u64,
        decreases k - i,
    {
        proof {
            lemma_pow10_bound((i + 1) as nat);
        }
        acc = acc * 10;
        i = i + 1;
    }
    proof {
        lemma_pow10_bound(k as nat);
    }
    acc
}

proof fn lemma_pow10_pos(k: nat)
    ensures
        pow10(k) >= 1,
    decreases k,
{
    if k > 0 {
        lemma_pow10_pos((k - 1) as nat);
    }
}

proof fn lemma_pow10_mono(a: nat, b: nat)
    requires
        a <= b,
    ensures
        pow10(a) <= pow10(b),
    decreases b - a,
{
    if a < b {
        lemma_pow10_mono(a, (b - 1) as nat);
        lemma_pow10_pos((b - 1) as nat);
    }
}

proof fn lemma_pow10_bound(k: nat)
    requires
        k <= 18,
    ensures
        1 <= pow10(k) <= 0xde0_b6b3_a764_0000,
{
    lemma_pow10_pos(k);
    lemma_pow10_mono(k, 18);
    assert(pow10(0) == 1);
    assert(pow10(1) == 10);
    assert(pow10(2) == 100);
    assert(pow10(3) == 1000);
    assert(pow10(4) == 10000);
    assert(pow10(5) == 100000);
    assert(pow10(6) == 1000000);
    assert(pow10(7) == 10000000);
    assert(pow10(8) == 100000000);
    assert(pow10(9) == 1000000000);
    assert(pow10(10) == 10000000000);
    assert(pow10(11) == 100000000000);
    assert(pow10(12) == 1000000000000);
    assert(pow10(13) == 10000000000000);
    assert(pow10(14) == 100000000000000);
    assert(pow10(15) == 1000000000000000);
    assert(pow10(16) == 10000000000000000);
    assert(pow10(17) == 100000000000000000);
    assert(pow10(18) == 1000000000000000000);
}

/// Parses one segment of a quantified member: an optional
/// `<digits>[.<digits>] <unit>` prefix, then the formula.
#[verifier::loop_isolation(false)]
#[verifier::rlimit(60)]
fn parse_quant_segment(
    periodic_table: &crate::chemistry::PeriodicTable,
    acc: &Vec<Token>,
) -> (r: Result<
    (crate::chemistry::Molecule, Option<crate::chemistry::ChemQuantity>),
    PositionedError,
>)
    ensures
        ({
            let out = spec_parse_quant_segment(periodic_table.entries@, toks_view(acc@));
            match r {
                Ok(p) => out matches Ok(q) && p.0@ == q.0 && (match p.1 {
                    Some(cq) => q.1 matches Some(qv) && cq@ == qv && cq.0.den >= 1,
                    None => q.1 is None,
                }),
                Err(e) => out matches Err(qe) && q_err_matches(e, qe),
            }
        }),
{
    broadcast use lemma_toks_view_index;

    let ghost av = toks_view(acc@);
    if acc.len() > 0 && acc[0].1 == TokenType::Numeric {
        let has_frac = acc.len() > 2 && acc[1].1 == TokenType::Dot && acc[2].1
            == TokenType::Numeric;
        let unit_ix: usize = if has_frac {
            3
        } else {
            1
        };
        let ip = match parse_number_u64(acc[0].0.as_str()) {
            None => {
                return Err(
                    PositionedError(String::from_str("number out of range"), Some(acc[0].2)),
                );
            },
            Some(v) => v,
        };
        let (frac, den): (u64, u64) = if has_frac {
            let f = match parse_number_u64(acc[2].0.as_str()) {
                None => {
                    return Err(
                        PositionedError(String::from_str("number out of range"), Some(acc[2].2)),
                    );
                },
                Some(f) => f,
            };
            let k = acc[2].0.as_str().unicode_len();
            if k > 18 {
                return Err(
                    PositionedError(String::from_str("number out of range"), Some(acc[2].2)),
                );
            }
            (f, pow10_exec(k))
        } else {
            (0, 1)
        };
        proof {
            assert((ip as u128) * (den as u128) <= 0xffff_ffff_ffff_ffffu128
                * 0xde0_b6b3_a764_0000u128) by (nonlinear_arith)
                requires
                    ip as u128 <= 0xffff_ffff_ffff_ffffu128 && den as u128
                        <= 0xde0_b6b3_a764_0000u128,
            ;
        }
        let num128: u128 = (ip as u128) * (den as u128) + (frac as u128);
        if num128 > i64::MAX as u128 {
            return Err(PositionedError(String::from_str("number out of range"), Some(acc[0].2)));
        }
        let num: i64 = num128 as i64;
        if unit_ix >= acc.len() || !(acc[unit_ix].1 == TokenType::Alphabetic) {
            return Err(
                PositionedError(
                    String::from_str(
                        "quantity format error, expected '<number> <unit>' before the formula",
                    ),
                    Some(acc[0].2),
                ),
            );
        }
        let unit = match crate::chemistry::chem_unit_for(&acc[unit_ix].0) {
            Ok(u) => u,
            Err(()) => {
                return Err(
                    PositionedError(String::from_str("unknown unit"), Some(acc[unit_ix].2)),
                );
            },
        };
        // the rest of the segment is the formula itself
        let mut rest: Vec<Token> = Vec::new();
        let mut i: usize = unit_ix + 1;
        proof {
            assert(toks_view(rest@) =~= av.skip(unit_ix + 1).take(0));
        }
        while i < acc.len()
            invariant
                unit_ix + 1 <= i <= acc@.len(),
                toks_view(rest@) == av.skip(unit_ix + 1).take(i - unit_ix - 1),
            decreases acc@.len() - i,
        {
            let ghost pre = toks_view(rest@);
            rest.push(acc[i].clone());
            proof {
                assert(toks_view(rest@) =~= av.skip(unit_ix + 1).take(i - unit_ix));
            }
            i = i + 1;
        }
        proof {
            assert(av.skip(unit_ix + 1).take(av.len() - unit_ix - 1) =~= av.skip(unit_ix + 1));
        }
        match parse_molecule(periodic_table, &rest) {
            Ok(m) => {
                let q = crate::chemistry::ChemQuantity(
                    crate::chemistry::Rational { num, den: den as i64 },
                    unit,
                );
                Ok((m, Some(q)))
            },
            Err(e) => Err(e),
        }
    } else {
        match parse_molecule(periodic_table, acc) {
            Ok(m) => Ok((m, None)),
            Err(e) => Err(e),
        }
    }
}

/// Tries to parse the quantified segment in `acc_tokens`, adds it to `out`
/// and clears `acc_tokens`.
fn terminate_quant_segment(
    periodic_table: &crate::chemistry::PeriodicTable,
    out: &mut Vec<(crate::chemistry::Molecule, Option<crate::chemistry::ChemQuantity>)>,
    acc_tokens: &mut Vec<Token>,
) -> (r: Result<(), PositionedError>)
    ensures
        final(acc_tokens)@.len() == 0,
        match spec_parse_quant_segment(periodic_table.entries@, toks_view(old(acc_tokens)@)) {
            Ok(p) => r is Ok && crate::chemistry::quants_view(final(out)@)
                == crate::chemistry::quants_view(old(out)@).push(p),
            Err(qe) => r matches Err(e) && q_err_matches(e, qe) && final(out)@ == old(out)@,
        },
{
    broadcast use crate::chemistry::lemma_quants_view_index;

    let ghost tv = toks_view(acc_tokens@);
    let parsed = parse_quant_segment(periodic_table, acc_tokens);
    acc_tokens.clear();
    match parsed {
        Ok(p) => {
            let ghost before = crate::chemistry::quants_view(out@);
            out.push(p);
            proof {
                assert(crate::chemistry::quants_view(out@) =~= before.push(
                    spec_parse_quant_segment(periodic_table.entries@, tv)->Ok_0,
                ));
            }
            Ok(())
        },
        Err(err) => Err(err),
    }
}

/// Splits one quantified member on '+' into segments and parses each.
#[verifier::loop_isolation(false)]
fn parse_quant_equation_member(
    periodic_table: &crate::chemistry::PeriodicTable,
    tokens: &Vec<Token>,
) -> (r: Result<
    Vec<(crate::chemistry::Molecule, Option<crate::chemistry::ChemQuantity>)>,
    PositionedError,
>)
    ensures
        ({
            let out = spec_quant_member_loop(
                periodic_table.entries@,
                toks_view(tokens@),
                0,
                Seq::empty(),
                false,
                Seq::empty(),
            );
            match r {
                Ok(ms) => out matches Ok(mv) && crate::chemistry::quants_view(ms@) == mv,
                Err(e) => out matches Err(qe) && q_err_matches(e, qe),
            }
        }),
{
    broadcast use lemma_toks_view_index, crate::chemistry::lemma_quants_view_index;

    let ghost tv = toks_view(tokens@);
    let ghost table = periodic_table.entries@;
    let ghost goal = spec_quant_member_loop(table, tv, 0, Seq::empty(), false, Seq::empty());
    let mut out: Vec<(crate::chemistry::Molecule, Option<crate::chemistry::ChemQuantity>)> =
        Vec::new();
    let mut acc_tokens: Vec<Token> = Vec::new();
    let mut expect_charge_plus_or_minus = false;
    let mut i: usize = 0;
    proof {
        assert(toks_view(acc_tokens@) =~= Seq::<TokV>::empty());
        assert(crate::chemistry::quants_view(out@) =~= Seq::<
            (crate::chemistry::MolV, Option<crate::chemistry::QuantV>),
        >::empty());
    }
    while i < tokens.len()
        invariant
            0 <= i <= tokens@.len(),
            spec_quant_member_loop(
                table,
                tv,
                i as int,
                toks_view(acc_tokens@),
                expect_charge_plus_or_minus,
                crate::chemistry::quants_view(out@),
            ) == goal,
        decreases tokens@.len() - i,
    {
        let ghost acc0 = toks_view(acc_tokens@);
        let kind = tokens[i].1;
        if kind == TokenType::Whitespace {
            // dropped; offsets in later tokens stay accurate
        } else if kind == TokenType::Exponent {
            expect_charge_plus_or_minus = true;
            acc_tokens.push(tokens[i].clone());
            proof {
                assert(toks_view(acc_tokens@) =~= acc0.push(tv[i as int]));
            }
        } else if kind == TokenType::Plus {
            if expect_charge_plus_or_minus {
                expect_charge_plus_or_minus = false;
                acc_tokens.push(tokens[i].clone());
                proof {
                    assert(toks_view(acc_tokens@) =~= acc0.push(tv[i as int]));
                }
            } else {
                let status_res = terminate_quant_segment(periodic_table, &mut out, &mut acc_tokens);
                if let Err(err) = status_res {
                    return Err(err);
                }
                proof {
                    assert(toks_view(acc_tokens@) =~= Seq::<TokV>::empty());
                }
            }
        } else if kind == TokenType::Minus {
            if expect_charge_plus_or_minus {
                expect_charge_plus_or_minus = false;
            }
            acc_tokens.push(tokens[i].clone());
            proof {
                assert(toks_view(acc_tokens@) =~= acc0.push(tv[i as int]));
            }
        } else if kind == TokenType::NoType {
            return Err(
                PositionedError(
                    msg_with_token("unrecognized token: ", &tokens[i].0),
                    Some(tokens[i].2),
                ),
            );
        } else if kind == TokenType::Arrow {
            return Err(
                PositionedError(
                    msg_with_token("unexpected token: ", &tokens[i].0),
                    Some(tokens[i].2),
                ),
            );
        } else {
            acc_tokens.push(tokens[i].clone());
            proof {
                assert(toks_view(acc_tokens@) =~= acc0.push(tv[i as int]));
            }
        }
        i = i + 1;
    }
    let status_res = terminate_quant_segment(periodic_table, &mut out, &mut acc_tokens);
    if let Err(err) = status_res {
        Err(err)
    } else {
        Ok(out)
    }
}

/// Parses an equation whose molecules may carry quantity prefixes: split on
/// the single arrow into exactly two members, each a '+'-separated list of
/// optionally quantified molecules.
#[verifier::loop_isolation(false)]
pub fn parse_quantified_equation(
    periodic_table: &crate::chemistry::PeriodicTable,
    tokens: &Vec<Token>,
) -> (r: Result<crate::chemistry::QuantifiedEquation, PositionedError>)
    ensures
        ({
            let table = periodic_table.entries@;
            let tv = toks_view(tokens@);
            match spec_split(tv, 0, 0, Seq::empty(), Seq::empty(), Seq::empty()) {
                Err(pos) => r matches Err(e) && e.0@ == "more than 2 members in equation"@ && (
                e.1 matches Some(q) && q as int == pos),
                Ok(sp) => {
                    if sp.3 != 1 {
                        r matches Err(e) && e.0@ == "an equation must have exactly 2 members"@
                            && e.1 is None
                    } else {
                        match (
                            spec_quant_member_loop(
                                table,
                                sp.0,
                                0,
                                Seq::empty(),
                                false,
                                Seq::empty(),
                            ),
                            spec_quant_member_loop(
                                table,
                                sp.1,
                                0,
                                Seq::empty(),
                                false,
                                Seq::empty(),
                            ),
                        ) {
                            (Ok(lm), Ok(rm)) => r matches Ok(eq)
                                && crate::chemistry::quants_view(eq.lhs@) == lm
                                && crate::chemistry::quants_view(eq.rhs@) == rm && eq.arrow@
                                == sp.2,
                            (Err(qe), _) => r matches Err(e) && q_err_matches(e, qe),
                            (Ok(_), Err(qe)) => r matches Err(e) && q_err_matches(e, qe),
                        }
                    }
                },
            }
        }),
{
    broadcast use lemma_toks_view_index;

    let ghost tv = toks_view(tokens@);
    let ghost goal = spec_split(tv, 0, 0, Seq::empty(), Seq::empty(), Seq::empty());
    let mut lhs_tokens: Vec<Token> = Vec::new();
    let mut rhs_tokens: Vec<Token> = Vec::new();
    let mut arrow = String::new();
    let mut member_idx: usize = 0;
    let mut i: usize = 0;
    proof {
        assert(toks_view(lhs_tokens@) =~= Seq::<TokV>::empty());
        assert(toks_view(rhs_tokens@) =~= Seq::<TokV>::empty());
    }
    while i < tokens.len()
        invariant
            0 <= i <= tokens@.len(),
            member_idx <= i,
            spec_split(
                tv,
                i as int,
                member_idx as int,
                toks_view(lhs_tokens@),
                toks_view(rhs_tokens@),
                arrow@,
            ) == goal,
        decreases tokens@.len() - i,
    {
        let kind = tokens[i].1;
        if kind == TokenType::Arrow {
            if member_idx == 0 {
                arrow = tokens[i].0.clone();
            }
            member_idx = member_idx + 1;
        } else if member_idx == 0 {
            let ghost acc0 = toks_view(lhs_tokens@);
            lhs_tokens.push(tokens[i].clone());
            proof {
                assert(toks_view(lhs_tokens@) =~= acc0.push(tv[i as int]));
            }
        } else if member_idx == 1 {
            let ghost acc0 = toks_view(rhs_tokens@);
            rhs_tokens.push(tokens[i].clone());
            proof {
                assert(toks_view(rhs_tokens@) =~= acc0.push(tv[i as int]));
            }
        } else {
            return Err(
                PositionedError(
                    String::from_str("more than 2 members in equation"),
                    Some(tokens[i].2),
                ),
            );
        }
        i = i + 1;
    }
    if member_idx == 1 {
        let lhs = match parse_quant_equation_member(periodic_table, &lhs_tokens) {
            Ok(l) => l,
            Err(err) => {
                return Err(err);
            },
        };
        let rhs = match parse_quant_equation_member(periodic_table, &rhs_tokens) {
            Ok(rr) => rr,
            Err(err) => {
                return Err(err);
            },
        };
        Ok(crate::chemistry::QuantifiedEquation { lhs, rhs, arrow })
    } else {
        Err(PositionedError(String::from_str("an equation must have exactly 2 members"), None))
    }
}

#[via_fn]
proof fn spec_parse_loop_decreases(
    table: Seq<crate::chemistry::Atom>,
    toks: Seq<TokV>,
    i: int,
    to: int,
    acc: Seq<(crate::chemistry::AtomV, int)>,
    charge: int,
) {
    if !(i < 0 || i >= to || to > toks.len()) {
        lemma_group_end_bounds(toks, i + 1, to, 1);
    }
}

} // verus!
