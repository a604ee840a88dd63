//! Lexical layer: the `Token` type, its pretty form, and the tokenizer.
//!
//! The tokenizer turns a string of characters into a sequence of tokens.
//! Whitespace only separates tokens.  A `-` introduces a short option, `--` a
//! long option; `[ ] { } |` stand for themselves; `...` is the repetition
//! mark; anything else starts a bare word.

use vstd::prelude::*;

verus! {

/// One lexical unit of the surface grammar.
#[derive(Debug)]
pub enum Token {
    Text(String),
    ShortOpt(String),
    LongOpt(String),
    LBracket,
    RBracket,
    LBrace,
    RBrace,
    Dots,
    Bar,
}

/// The mathematical value of a [`Token`]: payloads are character sequences.
#[verifier::ext_equal]
pub enum TokenV {
    Text(Seq<char>),
    ShortOpt(Seq<char>),
    LongOpt(Seq<char>),
    LBracket,
    RBracket,
    LBrace,
    RBrace,
    Dots,
    Bar,
}

impl View for Token {
    type V = TokenV;

    open spec fn view(&self) -> TokenV {
        match self {
            Token::Text(s) => TokenV::Text(s@),
            Token::ShortOpt(s) => TokenV::ShortOpt(s@),
            Token::LongOpt(s) => TokenV::LongOpt(s@),
            Token::LBracket => TokenV::LBracket,
            Token::RBracket => TokenV::RBracket,
            Token::LBrace => TokenV::LBrace,
            Token::RBrace => TokenV::RBrace,
            Token::Dots => TokenV::Dots,
            Token::Bar => TokenV::Bar,
        }
    }
}

impl PartialEq for Token {
    fn eq(&self, other: &Token) -> (r: bool)
        ensures
            r == (self@ == other@),
    {
        match (self, other) {
            (Token::Text(a), Token::Text(b)) => a.eq(b),
            (Token::ShortOpt(a), Token::ShortOpt(b)) => a.eq(b),
            (Token::LongOpt(a), Token::LongOpt(b)) => a.eq(b),
            (Token::LBracket, Token::LBracket) => true,
            (Token::RBracket, Token::RBracket) => true,
            (Token::LBrace, Token::LBrace) => true,
            (Token::RBrace, Token::RBrace) => true,
            (Token::Dots, Token::Dots) => true,
            (Token::Bar, Token::Bar) => true,
            _ => false,
        }
    }
}

impl vstd::std_specs::cmp::PartialEqSpecImpl for Token {
    open spec fn obeys_eq_spec() -> bool {
        true
    }

    open spec fn eq_spec(&self, other: &Token) -> bool {
        self@ == other@
    }
}

impl Eq for Token {

}

impl Clone for Token {
    fn clone(&self) -> (r: Token)
        ensures
            r == self,
    {
        match self {
            Token::Text(s) => Token::Text(s.clone()),
            Token::ShortOpt(s) => Token::ShortOpt(s.clone()),
            Token::LongOpt(s) => Token::LongOpt(s.clone()),
            Token::LBracket => Token::LBracket,
            Token::RBracket => Token::RBracket,
            Token::LBrace => Token::LBrace,
            Token::RBrace => Token::RBrace,
            Token::Dots => Token::Dots,
            Token::Bar => Token::Bar,
        }
    }
}

/// The exact substring that re-lexes to the token `t`.
pub open spec fn spec_token_pretty(t: TokenV) -> Seq<char> {
    match t {
        TokenV::Text(s) => s,
        TokenV::ShortOpt(s) => seq!['-'] + s,
        TokenV::LongOpt(s) => seq!['-', '-'] + s,
        TokenV::LBracket => seq!['['],
        TokenV::RBracket => seq![']'],
        TokenV::LBrace => seq!['{'],
        TokenV::RBrace => seq!['}'],
        TokenV::Dots => seq!['.', '.', '.'],
        TokenV::Bar => seq!['|'],
    }
}

impl Token {
    /// Renders the token back to its surface form.
    pub fn pretty(&self) -> (r: String)
        ensures
            r@ == spec_token_pretty(self@),
    {
        match self {
            Token::Text(s) => s.clone(),
            Token::ShortOpt(s) => {
                let mut r = String::new();
                r.append("-");
                r.append(s.as_str());
                proof {
                    reveal_strlit("-");
                    assert(r@ =~= seq!['-'] + s@);
                }
                r
            },
            Token::LongOpt(s) => {
                let mut r = String::new();
                r.append("--");
                r.append(s.as_str());
                proof {
                    reveal_strlit("--");
                    assert(r@ =~= seq!['-', '-'] + s@);
                }
                r
            },
            Token::LBracket => {
                let r = "[".to_owned();
                proof {
                    reveal_strlit("[");
                    assert(r@ =~= seq!['[']);
                }
                r
            },
            Token::RBracket => {
                let r = "]".to_owned();
                proof {
                    reveal_strlit("]");
                    assert(r@ =~= seq![']']);
                }
                r
            },
            Token::LBrace => {
                let r = "{".to_owned();
                proof {
                    reveal_strlit("{");
                    assert(r@ =~= seq!['{']);
                }
                r
            },
            Token::RBrace => {
                let r = "}".to_owned();
                proof {
                    reveal_strlit("}");
                    assert(r@ =~= seq!['}']);
                }
                r
            },
            Token::Dots => {
                let r = "...".to_owned();
                proof {
                    reveal_strlit("...");
                    assert(r@ =~= seq!['.', '.', '.']);
                }
                r
            },
            Token::Bar => {
                let r = "|".to_owned();
                proof {
                    reveal_strlit("|");
                    assert(r@ =~= seq!['|']);
                }
                r
            },
        }
    }
}

/// Whether `c` counts as whitespace for the tokenizer.  The exact character
/// class is Unicode's and is left abstract; it depends on the character alone.
pub uninterp spec fn is_whitespace_char(c: char) -> bool;

/// Relies on char::is_whitespace: the Unicode `White_Space` classification,
/// a function of the character alone.
#[verifier::external_body]
fn char_is_whitespace(c: char) -> (b: bool)
    ensures
        b == is_whitespace_char(c),
{
    c.is_whitespace()
}

/// Whether `c` counts as alphanumeric for option payloads.  The exact
/// character class is Unicode's and is left abstract; it depends on the
/// character alone.
pub uninterp spec fn is_alphanumeric_char(c: char) -> bool;

/// Relies on char::is_alphanumeric: the Unicode `Alphabetic`-or-`Numeric`
/// classification, a function of the character alone.
#[verifier::external_body]
fn char_is_alphanumeric(c: char) -> (b: bool)
    ensures
        b == is_alphanumeric_char(c),
{
    c.is_alphanumeric()
}

/// The characters that may continue a word or an option payload.
pub open spec fn spec_is_option_char(c: char) -> bool {
    is_alphanumeric_char(c) || c == '-' || c == '_'
}

fn is_option_char(c: char) -> (b: bool)
    ensures
        b == spec_is_option_char(c),
{
    char_is_alphanumeric(c) || c == '-' || c == '_'
}

/// Relies on String::push: appends exactly one character at the end.
#[verifier::external_body]
fn string_push(s: &mut String, c: char)
    ensures
        final(s)@ == old(s)@.push(c),
{
    s.push(c);
}

/// The length of the longest prefix of `s` made of option characters.
pub open spec fn run_len(s: Seq<char>) -> nat
    decreases s.len(),
{
    if s.len() > 0 && spec_is_option_char(s[0]) {
        1 + run_len(s.drop_first())
    } else {
        0
    }
}

/// A run of option characters never reaches past the end of the input.
pub proof fn lemma_run_len_le(s: Seq<char>)
    ensures
        run_len(s) <= s.len(),
    decreases s.len(),
{
    if s.len() > 0 && spec_is_option_char(s[0]) {
        lemma_run_len_le(s.drop_first());
    }
}

/// `run_len` is the unique boundary: option characters up to it, and either
/// the end of the input or a non-option character right after it.
proof fn lemma_run_len_is(s: Seq<char>, n: int)
    requires
        0 <= n <= s.len(),
        forall|i: int| 0 <= i < n ==> spec_is_option_char(s[i]),
        n == s.len() || !spec_is_option_char(s[n]),
    ensures
        run_len(s) == n,
    decreases s.len(),
{
    if n == 0 {
    } else {
        assert(spec_is_option_char(s[0]));
        lemma_run_len_is(s.drop_first(), n - 1);
    }
}

/// One step of the tokenizer: the next token of `s` and what is left after
/// it, the end of the input, or a failure on a malformed `...`.
#[verifier::ext_equal]
pub enum LexStep {
    Done,
    Next(TokenV, Seq<char>),
    Fail,
}

/// What the tokenizer does at the front of `s`: skip whitespace, then read
/// one token as the surface grammar prescribes.
pub open spec fn lex_next(s: Seq<char>) -> LexStep
    decreases s.len(),
{
    if s.len() == 0 {
        LexStep::Done
    } else if is_whitespace_char(s[0]) {
        lex_next(s.drop_first())
    } else if s[0] == '-' {
        if s.len() >= 2 && s[1] == '-' {
            let n = run_len(s.skip(2)) as int;
            LexStep::Next(TokenV::LongOpt(s.skip(2).take(n)), s.skip(2 + n))
        } else {
            let n = run_len(s.skip(1)) as int;
            LexStep::Next(TokenV::ShortOpt(s.skip(1).take(n)), s.skip(1 + n))
        }
    } else if s[0] == '[' {
        LexStep::Next(TokenV::LBracket, s.drop_first())
    } else if s[0] == ']' {
        LexStep::Next(TokenV::RBracket, s.drop_first())
    } else if s[0] == '{' {
        LexStep::Next(TokenV::LBrace, s.drop_first())
    } else if s[0] == '}' {
        LexStep::Next(TokenV::RBrace, s.drop_first())
    } else if s[0] == '|' {
        LexStep::Next(TokenV::Bar, s.drop_first())
    } else if s[0] == '.' {
        if s.len() >= 3 && s[1] == '.' && s[2] == '.' {
            LexStep::Next(TokenV::Dots, s.skip(3))
        } else {
            LexStep::Fail
        }
    } else {
        let n = run_len(s.skip(1)) as int;
        LexStep::Next(TokenV::Text(s.take(1 + n)), s.skip(1 + n))
    }
}

/// Reading one token consumes at least one character.
pub proof fn lemma_lex_next_rest(s: Seq<char>)
    ensures
        lex_next(s) matches LexStep::Next(t, rest) ==> rest.len() < s.len(),
    decreases s.len(),
{
    if s.len() == 0 {
    } else if is_whitespace_char(s[0]) {
        lemma_lex_next_rest(s.drop_first());
    } else if s[0] == '-' {
        if s.len() >= 2 && s[1] == '-' {
            lemma_run_len_le(s.skip(2));
        } else {
            lemma_run_len_le(s.skip(1));
        }
    } else if s[0] == '.' {
    } else {
        lemma_run_len_le(s.skip(1));
    }
}

/// The token sequence of `s`, or `None` when `s` holds a malformed `...`.
pub open spec fn tokenize_spec(s: Seq<char>) -> Option<Seq<TokenV>>
    decreases s.len(),
        via tokenize_spec_dec
{
    match lex_next(s) {
        LexStep::Done => Some(Seq::empty()),
        LexStep::Fail => None,
        LexStep::Next(t, rest) => match tokenize_spec(rest) {
            Some(ts) => Some(seq![t] + ts),
            None => None,
        },
    }
}

#[via_fn]
proof fn tokenize_spec_dec(s: Seq<char>) {
    lemma_lex_next_rest(s);
}

/// The views of a sequence of tokens, in order.
pub open spec fn tokens_view(s: Seq<Token>) -> Seq<TokenV> {
    s.map_values(|t: Token| t@)
}

/// Prepends an already-lexed prefix to the outcome on the rest of the input.
pub open spec fn opt_prepend(ts: Seq<TokenV>, rest: Option<Seq<TokenV>>) -> Option<Seq<TokenV>> {
    match rest {
        Some(r) => Some(ts + r),
        None => None,
    }
}

/// The message reported for a malformed `...`.
pub open spec fn lex_fail_msg() -> Seq<char> {
    "expected '...'"@
}

/// A character that can begin a bare word: anything the tokenizer does not
/// treat as whitespace, an option mark, a group mark, a bar or a dot.
pub open spec fn word_start_char(c: char) -> bool {
    !is_whitespace_char(c) && c != '-' && c != '[' && c != ']' && c != '{' && c != '}' && c != '|'
        && c != '.'
}

/// A token as the tokenizer makes them: option payloads hold option
/// characters only, a short option's payload never begins with `-`, and a
/// bare word begins with a word character.
pub open spec fn wf_token(t: TokenV) -> bool {
    match t {
        TokenV::Text(p) => p.len() >= 1 && word_start_char(p[0]) && (forall|k: int|
            1 <= k < p.len() ==> spec_is_option_char(#[trigger] p[k])),
        TokenV::ShortOpt(p) => (p.len() == 0 || p[0] != '-') && (forall|k: int|
            0 <= k < p.len() ==> spec_is_option_char(#[trigger] p[k])),
        TokenV::LongOpt(p) => forall|k: int|
            0 <= k < p.len() ==> spec_is_option_char(#[trigger] p[k]),
        _ => true,
    }
}

/// Everything inside a run of option characters is one.
proof fn lemma_run_len_chars(s: Seq<char>)
    ensures
        forall|k: int| 0 <= k < run_len(s) ==> spec_is_option_char(#[trigger] s[k]),
    decreases s.len(),
{
    if s.len() > 0 && spec_is_option_char(s[0]) {
        lemma_run_len_le(s);
        lemma_run_len_le(s.drop_first());
        lemma_run_len_chars(s.drop_first());
        assert forall|k: int| 0 <= k < run_len(s) implies spec_is_option_char(s[k]) by {
            if k > 0 {
                assert(s.drop_first()[k - 1] == s[k]);
            }
        }
    }
}

/// Every token the tokenizer hands out is well formed.
proof fn lemma_lex_next_wf(s: Seq<char>)
    ensures
        lex_next(s) matches LexStep::Next(t, rest) ==> wf_token(t),
    decreases s.len(),
{
    if s.len() == 0 {
    } else if is_whitespace_char(s[0]) {
        lemma_lex_next_wf(s.drop_first());
    } else if s[0] == '-' {
        if s.len() >= 2 && s[1] == '-' {
            let u = s.skip(2);
            lemma_run_len_le(u);
            lemma_run_len_chars(u);
            let n = run_len(u) as int;
            assert forall|k: int|
                0 <= k < u.take(n).len() implies spec_is_option_char(u.take(n)[k]) by {
                assert(u.take(n)[k] == u[k]);
            }
        } else {
            let u = s.skip(1);
            lemma_run_len_le(u);
            lemma_run_len_chars(u);
            let n = run_len(u) as int;
            assert forall|k: int|
                0 <= k < u.take(n).len() implies spec_is_option_char(u.take(n)[k]) by {
                assert(u.take(n)[k] == u[k]);
            }
            if n > 0 {
                assert(u[0] == s[1]);
                assert(u.take(n)[0] != '-');
            }
        }
    } else if s[0] == '.' {
    } else if s[0] == '[' || s[0] == ']' || s[0] == '{' || s[0] == '}' || s[0] == '|' {
    } else {
        let u = s.skip(1);
        lemma_run_len_le(u);
        lemma_run_len_chars(u);
        let n = run_len(u) as int;
        let p = s.take(1 + n);
        assert(p[0] == s[0]);
        assert(word_start_char(p[0]));
        assert forall|k: int| 1 <= k < p.len() implies spec_is_option_char(p[k]) by {
            assert(p[k] == s[k]);
            assert(u[k - 1] == s[k]);
        }
    }
}

/// Every token in a fully tokenized input is well formed.
pub proof fn lemma_tokenize_wf(s: Seq<char>)
    ensures
        tokenize_spec(s) matches Some(ts) ==> forall|k: int|
            0 <= k < ts.len() ==> wf_token(#[trigger] ts[k]),
    decreases s.len(),
{
    lemma_lex_next_wf(s);
    lemma_lex_next_rest(s);
    match lex_next(s) {
        LexStep::Done => {},
        LexStep::Fail => {},
        LexStep::Next(t, rest) => {
            lemma_tokenize_wf(rest);
            match tokenize_spec(rest) {
                Some(ts) => {
                    assert forall|k: int|
                        0 <= k < (seq![t] + ts).len() implies wf_token((seq![t] + ts)[k]) by {
                        if k > 0 {
                            assert((seq![t] + ts)[k] == ts[k - 1]);
                        }
                    }
                },
                None => {},
            }
        },
    }
}

/// A cursor over the characters of one input string, handing out one token
/// at a time.
pub struct Tokenizer {
    chars: Vec<char>,
    pos: usize,
}

impl Tokenizer {
    /// The characters not yet consumed.
    pub closed spec fn remaining(&self) -> Seq<char> {
        self.chars@.skip(self.pos as int)
    }

    /// The cursor stands inside the input.
    pub closed spec fn wf(&self) -> bool {
        self.pos <= self.chars@.len()
    }

    /// A tokenizer over all of `input`.
    pub fn new(input: &str) -> (t: Tokenizer)
        ensures
            t.wf(),
            t.remaining() == input@,
    {
        let n = input.unicode_len();
        let mut chars: Vec<char> = Vec::new();
        let mut i: usize = 0;
        while i < n
            invariant
                i <= n,
                n == input@.len(),
                chars@ == input@.subrange(0, i as int),
            decreases n - i,
        {
            let c = input.get_char(i);
            chars.push(c);
            i = i + 1;
            proof {
                assert(chars@ =~= input@.subrange(0, i as int));
            }
        }
        proof {
            assert(chars@ =~= input@);
            assert(chars@.skip(0) =~= chars@);
        }
        Tokenizer { chars, pos: 0 }
    }

    /// Consumes the maximal run of option characters at the cursor.
    fn scan_run(&mut self) -> (p: String)
        requires
            old(self).wf(),
        ensures
            final(self).wf(),
            p@ == old(self).remaining().take(run_len(old(self).remaining()) as int),
            final(self).remaining() == old(self).remaining().skip(
                run_len(old(self).remaining()) as int,
            ),
    {
        let ghost s0 = self.remaining();
        let ghost p0 = self.pos as int;
        let mut p = String::new();
        loop
            invariant
                self.wf(),
                self.chars == old(self).chars,
                0 <= p0 <= self.pos as int <= self.chars@.len(),
                s0 == self.chars@.skip(p0),
                p@ == s0.take(self.pos - p0),
                forall|i: int| 0 <= i < self.pos - p0 ==> spec_is_option_char(s0[i]),
            ensures
                self.pos == self.chars@.len() || !spec_is_option_char(s0[self.pos - p0]),
            decreases self.chars@.len() - self.pos,
        {
            if self.pos == self.chars.len() {
                break;
            }
            let c = self.chars[self.pos];
            proof {
                assert(self.chars@.skip(p0)[self.pos - p0] == self.chars@[self.pos as int]);
            }
            if !is_option_char(c) {
                break;
            }
            string_push(&mut p, c);
            self.pos = self.pos + 1;
            proof {
                assert(p@ =~= s0.take(self.pos - p0));
            }
        }
        proof {
            lemma_run_len_is(s0, self.pos - p0);
            assert(self.remaining() =~= s0.skip(self.pos - p0));
        }
        p
    }

    /// Hands out the next token: `Ok(None)` at the end of the input,
    /// `Err` on a malformed `...`.
    pub fn next(&mut self) -> (r: Result<Option<Token>, String>)
        requires
            old(self).wf(),
        ensures
            final(self).wf(),
            match r {
                Ok(Some(t)) => lex_next(old(self).remaining()) == LexStep::Next(
                    t@,
                    final(self).remaining(),
                ),
                Ok(None) => lex_next(old(self).remaining()) == LexStep::Done,
                Err(m) => lex_next(old(self).remaining()) == LexStep::Fail && m@ == lex_fail_msg(),
            },
    {
        let ghost r0 = old(self).remaining();
        while self.pos < self.chars.len() && char_is_whitespace(self.chars[self.pos])
            invariant
                self.wf(),
                self.chars == old(self).chars,
                lex_next(r0) == lex_next(self.remaining()),
            decreases self.chars@.len() - self.pos,
        {
            proof {
                assert(self.remaining()[0] == self.chars@[self.pos as int]);
                assert(self.remaining().drop_first() =~= self.chars@.skip(self.pos as int + 1));
            }
            self.pos = self.pos + 1;
        }
        let ghost s = self.remaining();
        if self.pos == self.chars.len() {
            proof {
                assert(s =~= Seq::<char>::empty());
            }
            return Ok(None);
        }
        let c = self.chars[self.pos];
        proof {
            assert(s[0] == c);
            assert(s.len() > 0);
        }
        if c == '[' || c == ']' || c == '{' || c == '}' || c == '|' {
            self.pos = self.pos + 1;
            proof {
                assert(self.remaining() =~= s.drop_first());
            }
            let t = if c == '[' {
                Token::LBracket
            } else if c == ']' {
                Token::RBracket
            } else if c == '{' {
                Token::LBrace
            } else if c == '}' {
                Token::RBrace
            } else {
                Token::Bar
            };
            Ok(Some(t))
        } else if c == '.' {
            let has3 = self.chars.len() - self.pos >= 3;
            if has3 && self.chars[self.pos + 1] == '.' && self.chars[self.pos + 2] == '.' {
                proof {
                    assert(s[1] == self.chars@[self.pos as int + 1]);
                    assert(s[2] == self.chars@[self.pos as int + 2]);
                }
                self.pos = self.pos + 3;
                proof {
                    assert(self.remaining() =~= s.skip(3));
                }
                Ok(Some(Token::Dots))
            } else {
                proof {
                    if s.len() >= 3 {
                        assert(s[1] == self.chars@[self.pos as int + 1]);
                        assert(s[2] == self.chars@[self.pos as int + 2]);
                    } else if s.len() >= 2 {
                        assert(s[1] == self.chars@[self.pos as int + 1]);
                    }
                }
                let m = "expected '...'".to_owned();
                Err(m)
            }
        } else if c == '-' {
            if self.chars.len() - self.pos >= 2 && self.chars[self.pos + 1] == '-' {
                proof {
                    assert(s[1] == self.chars@[self.pos as int + 1]);
                }
                self.pos = self.pos + 2;
                proof {
                    assert(self.remaining() =~= s.skip(2));
                }
                let p = self.scan_run();
                proof {
                    lemma_run_len_le(s.skip(2));
                    vstd::seq_lib::lemma_seq_skip_of_skip(s, 2, run_len(s.skip(2)) as int);
                }
                Ok(Some(Token::LongOpt(p)))
            } else {
                proof {
                    if s.len() >= 2 {
                        assert(s[1] == self.chars@[self.pos as int + 1]);
                    }
                }
                self.pos = self.pos + 1;
                proof {
                    assert(self.remaining() =~= s.skip(1));
                }
                let p = self.scan_run();
                proof {
                    lemma_run_len_le(s.skip(1));
                    vstd::seq_lib::lemma_seq_skip_of_skip(s, 1, run_len(s.skip(1)) as int);
                }
                Ok(Some(Token::ShortOpt(p)))
            }
        } else {
            self.pos = self.pos + 1;
            proof {
                assert(self.remaining() =~= s.skip(1));
            }
            let run = self.scan_run();
            let mut p = String::new();
            string_push(&mut p, c);
            p.append(run.as_str());
            proof {
                lemma_run_len_le(s.skip(1));
                vstd::seq_lib::lemma_seq_skip_of_skip(s, 1, run_len(s.skip(1)) as int);
                assert(p@ =~= s.take(1 + run_len(s.skip(1)) as int));
            }
            Ok(Some(Token::Text(p)))
        }
    }
}

/// All the tokens of `input`, or the tokenizer's failure on a malformed
/// `...`.
pub fn tokenize(input: &str) -> (r: Result<Vec<Token>, String>)
    ensures
        match r {
            Ok(v) => tokenize_spec(input@) == Some(tokens_view(v@)),
            Err(m) => tokenize_spec(input@) is None && m@ == lex_fail_msg(),
        },
{
    let mut tz = Tokenizer::new(input);
    let mut acc: Vec<Token> = Vec::new();
    loop
        invariant
            tz.wf(),
            tokenize_spec(input@) == opt_prepend(tokens_view(acc@), tokenize_spec(tz.remaining())),
        decreases tz.remaining().len(),
    {
        let ghost pre = tz.remaining();
        let ghost pre_acc = acc@;
        match tz.next() {
            Ok(Some(t)) => {
                proof {
                    lemma_lex_next_rest(pre);
                }
                acc.push(t);
                proof {
                    assert(tokens_view(acc@) =~= tokens_view(pre_acc).push(t@));
                    assert(tokenize_spec(input@) =~~= opt_prepend(
                        tokens_view(acc@),
                        tokenize_spec(tz.remaining()),
                    ));
                }
            },
            Ok(None) => {
                proof {
                    assert(tokenize_spec(pre) == Some(Seq::<TokenV>::empty()));
                    assert(tokens_view(acc@) + Seq::<TokenV>::empty() =~= tokens_view(acc@));
                }
                return Ok(acc);
            },
            Err(m) => {
                return Err(m);
            },
        }
    }
}

} // verus!
