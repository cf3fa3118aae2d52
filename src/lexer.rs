//! Turns one line of text into tokens.
use std::collections::VecDeque;
use vstd::prelude::*;

verus! {

/// One lexical unit. A literal keeps its text: a run of digits with at most
/// one decimal point, which reads as a floating-point number.
#[derive(Debug, PartialEq, Clone)]
pub enum TokenKind {
    Literal(String),
    Plus,
    Minus,
    Div,
    Mul,
    Exp,
    LParen,
    RParen,
}

/// The mathematical form of a token: a literal is a sequence of characters.
pub enum Tok {
    Num(Seq<char>),
    Plus,
    Minus,
    Div,
    Mul,
    Exp,
    LParen,
    RParen,
}

impl View for TokenKind {
    type V = Tok;

    open spec fn view(&self) -> Tok {
        match self {
            TokenKind::Literal(s) => Tok::Num(s@),
            TokenKind::Plus => Tok::Plus,
            TokenKind::Minus => Tok::Minus,
            TokenKind::Div => Tok::Div,
            TokenKind::Mul => Tok::Mul,
            TokenKind::Exp => Tok::Exp,
            TokenKind::LParen => Tok::LParen,
            TokenKind::RParen => Tok::RParen,
        }
    }
}

/// A syntax fault: a character that starts no token, or a run of digits and
/// points that is no number.
#[derive(Debug, PartialEq, Eq, Clone, Copy)]
pub struct ParseError;

/// Unicode white space, as `char::is_whitespace` and `str::trim` take it.
pub open spec fn is_space(c: char) -> bool {
    let u = c as u32;
    (0x9 <= u <= 0xd) || u == 0x20 || u == 0x85 || u == 0xa0 || u == 0x1680 || (0x2000 <= u
        <= 0x200a) || u == 0x2028 || u == 0x2029 || u == 0x202f || u == 0x205f || u == 0x3000
}

pub open spec fn is_digit(c: char) -> bool {
    '0' <= c <= '9'
}

/// A character that may stand in a numeric literal.
pub open spec fn is_number_char(c: char) -> bool {
    c == '.' || is_digit(c)
}

/// The token that a single character stands for, if it is an operator or a
/// parenthesis.
pub open spec fn single_token(c: char) -> Option<Tok> {
    if c == '+' {
        Some(Tok::Plus)
    } else if c == '-' {
        Some(Tok::Minus)
    } else if c == '*' {
        Some(Tok::Mul)
    } else if c == '/' {
        Some(Tok::Div)
    } else if c == '^' {
        Some(Tok::Exp)
    } else if c == '(' {
        Some(Tok::LParen)
    } else if c == ')' {
        Some(Tok::RParen)
    } else {
        None
    }
}

/// A character that can appear in a line that tokenizes.
pub open spec fn is_token_char(c: char) -> bool {
    is_space(c) || is_number_char(c) || single_token(c) is Some
}

/// The text without its leading white space.
pub open spec fn skip_space(s: Seq<char>) -> Seq<char>
    decreases s.len(),
{
    if s.len() > 0 && is_space(s[0]) {
        skip_space(s.drop_first())
    } else {
        s
    }
}

/// The length of the longest prefix made of digits and points.
pub open spec fn number_run(s: Seq<char>) -> nat
    decreases s.len(),
{
    if s.len() > 0 && is_number_char(s[0]) {
        1 + number_run(s.drop_first())
    } else {
        0
    }
}

/// A run of digits and points reads as a number when it holds a digit and at
/// most one point.
pub open spec fn valid_number(s: Seq<char>) -> bool {
    &&& exists|i: int| 0 <= i < s.len() && is_digit(#[trigger] s[i])
    &&& forall|i: int, j: int|
        #![trigger s[i], s[j]]
        0 <= i < j < s.len() && s[i] == '.' ==> s[j] != '.'
}

/// What reading one token from a text gives.
pub enum Scan {
    /// Only white space is left.
    End,
    /// The next character starts no token, or the numeric run is malformed.
    Fault,
    /// A token, and the text after it.
    Token(Tok, Seq<char>),
}

/// Reading one token: skip white space, then take one operator character or
/// the whole run of digits and points.
pub open spec fn scan(s: Seq<char>) -> Scan {
    let t = skip_space(s);
    if t.len() == 0 {
        Scan::End
    } else if single_token(t[0]) is Some {
        Scan::Token(single_token(t[0])->0, t.drop_first())
    } else if is_number_char(t[0]) {
        let n = number_run(t) as int;
        if valid_number(t.take(n)) {
            Scan::Token(Tok::Num(t.take(n)), t.skip(n))
        } else {
            Scan::Fault
        }
    } else {
        Scan::Fault
    }
}

pub proof fn lemma_skip_space_suffix(s: Seq<char>)
    ensures
        skip_space(s).len() <= s.len(),
        skip_space(s) == s.skip(s.len() - skip_space(s).len()),
        forall|i: int| 0 <= i < s.len() - skip_space(s).len() ==> is_space(#[trigger] s[i]),
    decreases s.len(),
{
    if s.len() > 0 && is_space(s[0]) {
        lemma_skip_space_suffix(s.drop_first());
        assert(s.drop_first().skip(s.drop_first().len() - skip_space(s).len()) =~= s.skip(
            s.len() - skip_space(s).len(),
        ));
        assert forall|i: int| 0 <= i < s.len() - skip_space(s).len() implies is_space(
            #[trigger] s[i],
        ) by {
            if i > 0 {
                assert(s[i] == s.drop_first()[i - 1]);
            }
        }
    } else {
        assert(s.skip(0) =~= s);
    }
}

pub proof fn lemma_number_run(s: Seq<char>)
    ensures
        number_run(s) <= s.len(),
        forall|i: int| 0 <= i < number_run(s) ==> is_number_char(#[trigger] s[i]),
        number_run(s) < s.len() ==> !is_number_char(s[number_run(s) as int]),
    decreases s.len(),
{
    if s.len() > 0 && is_number_char(s[0]) {
        lemma_number_run(s.drop_first());
        assert forall|i: int| 0 <= i < number_run(s) implies is_number_char(#[trigger] s[i]) by {
            if i > 0 {
                assert(s[i] == s.drop_first()[i - 1]);
            }
        }
        if number_run(s) < s.len() {
            assert(s[number_run(s) as int] == s.drop_first()[number_run(s) - 1]);
        }
    }
}

/// What is left after a token is shorter than the text it was read from.
pub proof fn lemma_scan_shrinks(s: Seq<char>)
    ensures
        scan(s) matches Scan::Token(_, rest) ==> rest.len() < s.len(),
{
    lemma_skip_space_suffix(s);
    lemma_number_run(skip_space(s));
}

/// Tokenizing a whole text: the tokens in order, or a syntax fault.
pub open spec fn tokenize_spec(s: Seq<char>) -> Result<Seq<Tok>, ()>
    decreases s.len(),
    via tokenize_spec_decreases
{
    match scan(s) {
        Scan::End => Ok(Seq::empty()),
        Scan::Fault => Err(()),
        Scan::Token(t, rest) => match tokenize_spec(rest) {
            Ok(ts) => Ok(seq![t] + ts),
            Err(e) => Err(e),
        },
    }
}

#[via_fn]
proof fn tokenize_spec_decreases(s: Seq<char>) {
    lemma_scan_shrinks(s);
}

/// A text that holds a character which is neither white space, a digit, a
/// point, an operator nor a parenthesis does not tokenize: it gives a syntax
/// fault.
pub proof fn lemma_foreign_char_faults(s: Seq<char>, i: int)
    requires
        0 <= i < s.len(),
        !is_token_char(s[i]),
    ensures
        tokenize_spec(s) is Err,
    decreases s.len(),
{
    lemma_skip_space_suffix(s);
    let t = skip_space(s);
    let k = s.len() - t.len();
    assert(i >= k);
    assert(t[i - k] == s[i]);
    if t.len() > 0 && single_token(t[0]) is Some {
        assert(i - k > 0);
        assert(t.drop_first()[i - k - 1] == s[i]);
        lemma_scan_shrinks(s);
        lemma_foreign_char_faults(t.drop_first(), i - k - 1);
    } else if t.len() > 0 && is_number_char(t[0]) {
        lemma_number_run(t);
        let n = number_run(t) as int;
        assert(i - k >= n);
        if valid_number(t.take(n)) {
            assert(t.skip(n)[i - k - n] == s[i]);
            lemma_scan_shrinks(s);
            lemma_foreign_char_faults(t.skip(n), i - k - n);
        }
    }
}

/// Whether a character is white space.
pub fn is_space_char(c: char) -> (r: bool)
    ensures
        r == is_space(c),
{
    let u = c as u32;
    (0x9 <= u && u <= 0xd) || u == 0x20 || u == 0x85 || u == 0xa0 || u == 0x1680 || (0x2000 <= u
        && u <= 0x200a) || u == 0x2028 || u == 0x2029 || u == 0x202f || u == 0x205f || u
        == 0x3000
}

/// Whether a character may stand in a numeric literal.
pub fn is_number_char_exec(c: char) -> (r: bool)
    ensures
        r == is_number_char(c),
{
    c == '.' || ('0' <= c && c <= '9')
}

/// Relies on `String::push`: the character is appended at the end.
#[verifier::external_body]
fn push_char(s: &mut String, c: char)
    ensures
        final(s)@ == old(s)@.push(c),
{
    s.push(c);
}

/// Whether `chars[lo..hi]` reads as a number.
fn valid_number_at(chars: &Vec<char>, lo: usize, hi: usize) -> (r: bool)
    requires
        lo <= hi <= chars.len(),
    ensures
        r == valid_number(chars@.subrange(lo as int, hi as int)),
{
    let ghost s = chars@.subrange(lo as int, hi as int);
    let mut digit = false;
    let mut dot = false;
    let mut ok = true;
    let mut k: usize = lo;
    while k < hi
        invariant
            lo <= k <= hi <= chars.len(),
            s == chars@.subrange(lo as int, hi as int),
            digit <==> exists|a: int| 0 <= a < k - lo && is_digit(#[trigger] s[a]),
            dot <==> exists|a: int| 0 <= a < k - lo && #[trigger] s[a] == '.',
            ok <==> forall|a: int, b: int|
                #![trigger s[a], s[b]]
                0 <= a < b < k - lo && s[a] == '.' ==> s[b] != '.',
        decreases hi - k,
    {
        let c = chars[k];
        let ghost m = k - lo;
        let ghost had_dot = dot;
        assert(s[m] == c);
        if c == '.' {
            if dot {
                ok = false;
            }
            dot = true;
        } else if '0' <= c && c <= '9' {
            digit = true;
        }
        k = k + 1;
        proof {
            if c == '.' && had_dot {
                let a = choose|a: int| 0 <= a < m && #[trigger] s[a] == '.';
                assert(s[a] == '.' && s[m] == '.');
            }
        }
    }
    digit && ok
}

/// The tokenizer: the text that is still to be read.
pub struct Lexer {
    chars: Vec<char>,
    pos: usize,
}

impl View for Lexer {
    type V = Seq<char>;

    closed spec fn view(&self) -> Seq<char> {
        self.chars@.skip(self.pos as int)
    }
}

impl Lexer {
    /// The cursor stands inside the text.
    pub closed spec fn wf(&self) -> bool {
        self.pos <= self.chars.len()
    }

    pub fn new(source: &str) -> (r: Self)
        ensures
            r.wf(),
            r@ == source@,
    {
        let mut chars: Vec<char> = Vec::new();
        for c in it: source.chars()
            invariant
                it.seq() == source@,
                chars@ == source@.take(it.index() as int),
        {
            chars.push(c);
            proof {
                assert(chars@ =~= source@.take(it.index() as int + 1));
            }
        }
        assert(chars@.skip(0) =~= source@);
        Lexer { chars, pos: 0 }
    }

    /// Reads the next token. At the end of the text the result is `Ok(None)`;
    /// on a syntax fault nothing is consumed.
    pub fn next_token(&mut self) -> (r: Result<Option<TokenKind>, ParseError>)
        requires
            old(self).wf(),
        ensures
            final(self).wf(),
            match r {
                Ok(None) => scan(old(self)@) is End && final(self)@.len() == 0,
                Ok(Some(t)) => scan(old(self)@) == Scan::Token(t@, final(self)@),
                Err(_) => scan(old(self)@) is Fault && final(self)@ == old(self)@,
            },
    {
        let len = self.chars.len();
        let mut i = self.pos;
        while i < len && is_space_char(self.chars[i])
            invariant
                self.pos <= i <= len,
                len == self.chars.len(),
                self.wf(),
                self == old(self),
                skip_space(self@) == skip_space(self.chars@.skip(i as int)),
            decreases len - i,
        {
            assert(self.chars@.skip(i as int).drop_first() =~= self.chars@.skip(i + 1));
            i = i + 1;
        }
        let ghost t = self.chars@.skip(i as int);
        assert(skip_space(self@) == t);
        if i == len {
            self.pos = i;
            return Ok(None);
        }
        let c = self.chars[i];
        assert(t[0] == c);
        let single = if c == '+' {
            Some(TokenKind::Plus)
        } else if c == '-' {
            Some(TokenKind::Minus)
        } else if c == '*' {
            Some(TokenKind::Mul)
        } else if c == '/' {
            Some(TokenKind::Div)
        } else if c == '^' {
            Some(TokenKind::Exp)
        } else if c == '(' {
            Some(TokenKind::LParen)
        } else if c == ')' {
            Some(TokenKind::RParen)
        } else {
            None
        };
        if let Some(tok) = single {
            self.pos = i + 1;
            assert(t.drop_first() =~= self@);
            return Ok(Some(tok));
        }
        if !is_number_char_exec(c) {
            return Err(ParseError);
        }
        let mut j = i;
        let mut text = String::new();
        while j < len && is_number_char_exec(self.chars[j])
            invariant
                i <= j <= len,
                len == self.chars.len(),
                self == old(self),
                t == self.chars@.skip(i as int),
                text@ == self.chars@.subrange(i as int, j as int),
                forall|k: int| 0 <= k < j - i ==> is_number_char(#[trigger] t[k]),
            decreases len - j,
        {
            push_char(&mut text, self.chars[j]);
            assert(text@ =~= self.chars@.subrange(i as int, j + 1));
            j = j + 1;
        }
        proof {
            lemma_number_run(t);
            let n = number_run(t) as int;
            if n < j - i {
                assert(is_number_char(t[n]));
            }
            if n > j - i {
                assert(is_number_char(t[j - i]));
            }
            assert(n == j - i);
            assert(t.take(n) =~= self.chars@.subrange(i as int, j as int));
        }
        if !valid_number_at(&self.chars, i, j) {
            return Err(ParseError);
        }
        self.pos = j;
        assert(t.skip(j - i) =~= self@);
        Ok(Some(TokenKind::Literal(text)))
    }
}

/// Tokenizes a whole line, as `next_token` does until the end of the text.
pub fn tokenize(source: &str) -> (r: Result<VecDeque<TokenKind>, ParseError>)
    ensures
        match r {
            Ok(v) => tokenize_spec(source@) == Ok::<Seq<Tok>, ()>(v@.map_values(|t: TokenKind| t@)),
            Err(_) => tokenize_spec(source@) is Err,
        },
{
    let mut lx = Lexer::new(source);
    let mut out: VecDeque<TokenKind> = VecDeque::new();
    loop
        invariant
            lx.wf(),
            tokenize_spec(source@) == match tokenize_spec(lx@) {
                Ok(ts) => Ok(out@.map_values(|t: TokenKind| t@) + ts),
                Err(e) => Err::<Seq<Tok>, ()>(e),
            },
        decreases lx@.len(),
    {
        let ghost before = lx@;
        match lx.next_token() {
            Ok(Some(tok)) => {
                proof {
                    lemma_scan_shrinks(before);
                }
                let ghost tv = tok@;
                let ghost prev = out@.map_values(|t: TokenKind| t@);
                out.push_back(tok);
                assert(out@.map_values(|t: TokenKind| t@) =~= prev.push(tv));
                proof {
                    if let Ok(ts) = tokenize_spec(lx@) {
                        assert(prev + (seq![tv] + ts) =~= prev.push(tv) + ts);
                    }
                }
            },
            Ok(None) => {
                assert(out@.map_values(|t: TokenKind| t@) + Seq::<Tok>::empty() =~= out@.map_values(|t: TokenKind| t@));
                return Ok(out);
            },
            Err(e) => {
                return Err(e);
            },
        }
    }
}

} // verus!
