use vstd::prelude::*;
use vstd::string::StringExecFns;

verus! {

/// Why tokenizing stopped.
#[derive(Debug, Clone, Copy, PartialEq, Eq, Structural)]
pub enum TokenizeError {
    /// The input ended where a character was still needed.
    UnexpectedEnd,
    /// A character that no token can start with or continue.
    UnexpectedCharacter(char),
    /// A number with no digits on either side of its decimal point.
    NumberParseError,
}

/// An operator.
#[derive(Debug, Clone, Copy, PartialEq, Eq, Hash, Structural)]
pub enum Op {
    Add,
    Sub,
    Mul,
    Div,
    Lt,
    Gt,
    Assign,
    RangeExclusive,
}

/// A separator.
#[derive(Debug, Clone, Copy, PartialEq, Eq, Hash, Structural)]
pub enum Sep {
    Comma,
    Colon,
    BraceOpen,
    BraceClose,
    ParensOpen,
    ParensClose,
    BracketOpen,
    BracketClose,
}

/// A numeric literal, kept exactly as written: a sign and the digit runs on
/// either side of the decimal point.  Whoever consumes the token turns it
/// into whatever numeric type it wants.
#[derive(Debug, Clone, PartialEq, Eq)]
pub struct NumberLit {
    pub negative: bool,
    pub whole: String,
    pub frac: String,
}

/// A token, some significant piece of data to be parsed.
#[derive(Debug, Clone, PartialEq)]
pub enum Token {
    /// A separator.
    Sep(Sep),
    /// An operator.
    Op(Op),
    /// An identifier. Not escaped, quoted, etc.
    Identifier(String),
    /// A string: any text that was surrounded by quotes. Supports quote escaping.
    Text(String),
    /// A number. Decimals optional.
    Number(NumberLit),
    /// A boolean.
    Boolean(bool),
}

/// The mathematical shape of a token: text is a sequence of characters.
pub enum TokenModel {
    Sep(Sep),
    Op(Op),
    Identifier(Seq<char>),
    Text(Seq<char>),
    Number { negative: bool, whole: Seq<char>, frac: Seq<char> },
    Boolean(bool),
}

impl View for Token {
    type V = TokenModel;

    open spec fn view(&self) -> TokenModel {
        match self {
            Token::Sep(s) => TokenModel::Sep(*s),
            Token::Op(o) => TokenModel::Op(*o),
            Token::Identifier(s) => TokenModel::Identifier(s@),
            Token::Text(s) => TokenModel::Text(s@),
            Token::Number(n) => TokenModel::Number {
                negative: n.negative,
                whole: n.whole@,
                frac: n.frac@,
            },
            Token::Boolean(b) => TokenModel::Boolean(*b),
        }
    }
}

/// Characters are drawn from bytes, so the classes below spell out how the
/// standard library classifies the first 256 characters.
/// The whitespace characters among them.
pub open spec fn whitespace_char(c: char) -> bool {
    let u = c as u32;
    (9 <= u && u <= 13) || u == 32 || u == 0x85 || u == 0xa0
}

/// The alphanumeric characters among them: ASCII letters and digits, and the
/// letters and numeric signs of the Latin-1 supplement.
pub open spec fn alnum_char(c: char) -> bool {
    let u = c as u32;
    (0x41 <= u && u <= 0x5a) || (0x61 <= u && u <= 0x7a) || (0x30 <= u && u <= 0x39) || u == 0xaa
        || u == 0xb2 || u == 0xb3 || u == 0xb5 || u == 0xb9 || u == 0xba || (0xbc <= u && u
        <= 0xbe) || (0xc0 <= u && u <= 0xd6) || (0xd8 <= u && u <= 0xf6) || (0xf8 <= u && u
        <= 0xff)
}

/// What may continue an identifier.
pub open spec fn ident_char(c: char) -> bool {
    alnum_char(c) || c == '_'
}

/// An ASCII decimal digit.
pub open spec fn digit_char(c: char) -> bool {
    let u = c as u32;
    0x30 <= u && u <= 0x39
}

/// An ASCII letter, which is what an identifier may start with.
pub open spec fn letter_char(c: char) -> bool {
    let u = c as u32;
    (0x41 <= u && u <= 0x5a) || (0x61 <= u && u <= 0x7a)
}

#[verifier::when_used_as_spec(whitespace_char)]
pub fn is_whitespace_char(c: char) -> (r: bool)
    ensures
        r == whitespace_char(c),
{
    let u = c as u32;
    (9 <= u && u <= 13) || u == 32 || u == 0x85 || u == 0xa0
}

#[verifier::when_used_as_spec(ident_char)]
pub fn is_ident_char(c: char) -> (r: bool)
    ensures
        r == ident_char(c),
{
    let u = c as u32;
    (0x41 <= u && u <= 0x5a) || (0x61 <= u && u <= 0x7a) || (0x30 <= u && u <= 0x39) || u == 0xaa
        || u == 0xb2 || u == 0xb3 || u == 0xb5 || u == 0xb9 || u == 0xba || (0xbc <= u && u
        <= 0xbe) || (0xc0 <= u && u <= 0xd6) || (0xd8 <= u && u <= 0xf6) || (0xf8 <= u && u
        <= 0xff) || c == '_'
}

#[verifier::when_used_as_spec(digit_char)]
pub fn is_digit_char(c: char) -> (r: bool)
    ensures
        r == digit_char(c),
{
    let u = c as u32;
    0x30 <= u && u <= 0x39
}

#[verifier::when_used_as_spec(letter_char)]
pub fn is_letter_char(c: char) -> (r: bool)
    ensures
        r == letter_char(c),
{
    let u = c as u32;
    (0x41 <= u && u <= 0x5a) || (0x61 <= u && u <= 0x7a)
}

/// Relies on String::push: appends exactly one character to the string.
#[verifier::external_body]
fn push_char(s: &mut String, c: char)
    ensures
        final(s)@ == old(s)@.push(c),
{
    s.push(c);
}

/// Where the identifier that starts at `i` ends: the first position at or
/// after `i` whose character cannot continue an identifier.
pub open spec fn ident_end(s: Seq<char>, i: int) -> int
    decreases s.len() - i,
{
    if i < 0 || i >= s.len() {
        i
    } else if ident_char(s[i]) {
        ident_end(s, i + 1)
    } else {
        i
    }
}

pub proof fn lemma_ident_end_bounds(s: Seq<char>, i: int)
    requires
        0 <= i <= s.len(),
    ensures
        i <= ident_end(s, i) <= s.len(),
    decreases s.len() - i,
{
    if i < s.len() && ident_char(s[i]) {
        lemma_ident_end_bounds(s, i + 1);
    }
}

/// What reading a quoted string from `i` (just past the opening quote)
/// yields, and where reading resumes: an unescaped quote ends the text; a
/// backslash arms an escape; an escaped `n` feeds a newline and leaves the
/// escape armed; anything else feeds itself and disarms it.  Input that ends
/// before the closing quote yields what was gathered.
pub open spec fn string_scan(s: Seq<char>, i: int, escape: bool) -> (Seq<char>, int)
    decreases s.len() - i,
{
    if i < 0 || i >= s.len() {
        (Seq::empty(), i)
    } else {
        let c = s[i];
        if c == '"' && !escape {
            (Seq::empty(), i + 1)
        } else if c == '\\' && !escape {
            string_scan(s, i + 1, true)
        } else if c == 'n' && escape {
            let r = string_scan(s, i + 1, true);
            (seq!['\n'] + r.0, r.1)
        } else {
            let r = string_scan(s, i + 1, false);
            (seq![c] + r.0, r.1)
        }
    }
}

pub proof fn lemma_string_scan_bounds(s: Seq<char>, i: int, escape: bool)
    requires
        0 <= i <= s.len(),
    ensures
        i <= string_scan(s, i, escape).1 <= s.len(),
    decreases s.len() - i,
{
    if i < s.len() {
        let c = s[i];
        if !(c == '"' && !escape) {
            if c == '\\' && !escape {
                lemma_string_scan_bounds(s, i + 1, true);
            } else if c == 'n' && escape {
                lemma_string_scan_bounds(s, i + 1, true);
            } else {
                lemma_string_scan_bounds(s, i + 1, false);
            }
        }
    }
}

/// What scanning the digits of a number from `i` yields: the digits before
/// and after the decimal point, where scanning stopped, and whether a second
/// decimal point was struck (which is an error).
pub struct NumScan {
    pub ok: bool,
    pub pre: Seq<char>,
    pub post: Seq<char>,
    pub end: int,
}

pub open spec fn num_scan(s: Seq<char>, i: int, dec_seen: bool) -> NumScan
    decreases s.len() - i,
{
    if i < 0 || i >= s.len() {
        NumScan { ok: true, pre: Seq::empty(), post: Seq::empty(), end: i }
    } else {
        let c = s[i];
        if c == '.' && dec_seen {
            NumScan { ok: false, pre: Seq::empty(), post: Seq::empty(), end: i }
        } else if c == '.' {
            num_scan(s, i + 1, true)
        } else if digit_char(c) {
            let r = num_scan(s, i + 1, dec_seen);
            if dec_seen {
                NumScan { ok: r.ok, pre: r.pre, post: seq![c] + r.post, end: r.end }
            } else {
                NumScan { ok: r.ok, pre: seq![c] + r.pre, post: r.post, end: r.end }
            }
        } else {
            NumScan { ok: true, pre: Seq::empty(), post: Seq::empty(), end: i }
        }
    }
}

pub proof fn lemma_num_scan_bounds(s: Seq<char>, i: int, dec_seen: bool)
    requires
        0 <= i <= s.len(),
    ensures
        i <= num_scan(s, i, dec_seen).end <= s.len(),
    decreases s.len() - i,
{
    if i < s.len() {
        let c = s[i];
        if !(c == '.' && dec_seen) {
            if c == '.' {
                lemma_num_scan_bounds(s, i + 1, true);
            } else if digit_char(c) {
                lemma_num_scan_bounds(s, i + 1, dec_seen);
            }
        }
    }
}

/// What reading a whole number token from `i` yields: the sign, the digit
/// runs (each padded with a single zero when empty), and where reading
/// resumes; or the error.  A number with no digits at all is refused, and so
/// is a second decimal point.
pub struct NumRead {
    pub ok: bool,
    pub err: TokenizeError,
    pub negative: bool,
    pub whole: Seq<char>,
    pub frac: Seq<char>,
    pub end: int,
}

pub open spec fn spec_read_number(s: Seq<char>, i: int, def_negative: bool) -> NumRead {
    let negative = def_negative || (0 <= i < s.len() && s[i] == '-');
    let start = if !def_negative && 0 <= i < s.len() && s[i] == '-' {
        i + 1
    } else {
        i
    };
    let scan = num_scan(s, start, false);
    if !scan.ok {
        NumRead {
            ok: false,
            err: TokenizeError::UnexpectedCharacter('.'),
            negative,
            whole: Seq::empty(),
            frac: Seq::empty(),
            end: scan.end,
        }
    } else if scan.pre.len() == 0 && scan.post.len() == 0 {
        NumRead {
            ok: false,
            err: TokenizeError::NumberParseError,
            negative,
            whole: Seq::empty(),
            frac: Seq::empty(),
            end: scan.end,
        }
    } else {
        NumRead {
            ok: true,
            err: TokenizeError::NumberParseError,
            negative,
            whole: if scan.pre.len() == 0 {
                seq!['0']
            } else {
                scan.pre
            },
            frac: if scan.post.len() == 0 {
                seq!['0']
            } else {
                scan.post
            },
            end: scan.end,
        }
    }
}

/// A tokenizer: a cursor over a buffer of characters, reading out a stream
/// of tokens.
pub struct Tokenizer {
    pub input: Vec<char>,
    pub pos: usize,
}

impl Tokenizer {
    pub fn new(input: Vec<char>) -> (t: Tokenizer)
        ensures
            t.input@ == input@,
            t.pos == 0,
    {
        Tokenizer { input, pos: 0 }
    }

    /// The character under the cursor, which moves past it.
    pub fn next(&mut self) -> (c: Option<char>)
        ensures
            old(self).pos < old(self).input@.len() ==> c == Some(
                old(self).input@[old(self).pos as int],
            ) && final(self).pos == old(self).pos + 1,
            old(self).pos >= old(self).input@.len() ==> c is None && final(self).pos == old(
                self,
            ).pos,
            final(self).input@ == old(self).input@,
    {
        if self.pos < self.input.len() {
            let c = self.input[self.pos];
            self.pos = self.pos + 1;
            Some(c)
        } else {
            None
        }
    }

    /// Read an identifier, which is just an alphanumeric bit of text.
    pub fn read_identifier(&mut self) -> (r: String)
        requires
            old(self).pos <= old(self).input@.len(),
        ensures
            final(self).input@ == old(self).input@,
            final(self).pos == ident_end(old(self).input@, old(self).pos as int),
            old(self).pos <= final(self).pos <= old(self).input@.len(),
            r@ == old(self).input@.subrange(old(self).pos as int, final(self).pos as int),
    {
        let ghost s = self.input@;
        let ghost start = self.pos as int;
        let mut r = String::new();
        proof {
            lemma_ident_end_bounds(s, start);
        }
        while self.pos < self.input.len() && is_ident_char(self.input[self.pos])
            invariant
                self.input@ == s,
                0 <= start <= self.pos <= s.len(),
                ident_end(s, start) == ident_end(s, self.pos as int),
                r@ =~= s.subrange(start, self.pos as int),
            decreases s.len() - self.pos,
        {
            proof {
                let p = self.pos as int;
                assert(s.subrange(start, p + 1) =~= s.subrange(start, p).push(s[p]));
            }
            push_char(&mut r, self.input[self.pos]);
            self.pos = self.pos + 1;
        }
        proof {
            lemma_ident_end_bounds(s, self.pos as int);
        }
        r
    }

    /// Read a string, which is two quotations surrounding any amount of text.
    /// The cursor stands on the opening quote.
    pub fn read_string(&mut self) -> (r: String)
        requires
            old(self).pos < old(self).input@.len(),
        ensures
            final(self).input@ == old(self).input@,
            r@ == string_scan(old(self).input@, old(self).pos + 1, false).0,
            final(self).pos == string_scan(old(self).input@, old(self).pos + 1, false).1,
            old(self).pos < final(self).pos <= old(self).input@.len(),
    {
        let ghost s = self.input@;
        let ghost start: int = self.pos + 1;
        let n = self.input.len();
        // skip the initial quotation
        self.pos = self.pos + 1;

        let mut escape = false;
        let mut text = String::new();

        proof {
            lemma_string_scan_bounds(s, start, false);
        }
        loop
            invariant_except_break
                string_scan(s, start, false).0 =~= text@ + string_scan(
                    s,
                    self.pos as int,
                    escape,
                ).0,
                string_scan(s, start, false).1 == string_scan(s, self.pos as int, escape).1,
            invariant
                self.input@ == s,
                n == s.len(),
                0 < start <= self.pos <= s.len(),
            ensures
                self.input@ == s,
                string_scan(s, start, false).0 =~= text@,
                string_scan(s, start, false).1 == self.pos,
                start <= self.pos <= s.len(),
            decreases s.len() - self.pos,
        {
            proof {
                lemma_string_scan_bounds(s, self.pos as int, escape);
            }
            if self.pos >= n {
                proof {
                    assert(text@ + Seq::<char>::empty() =~= text@);
                }
                break ;
            }
            let c = self.input[self.pos];
            if c == '"' && !escape {
                self.pos = self.pos + 1;
                proof {
                    assert(text@ + Seq::<char>::empty() =~= text@);
                }
                break ;
            } else if c == '\\' && !escape {
                self.pos = self.pos + 1;
                escape = true;
            } else if c == 'n' && escape {
                self.pos = self.pos + 1;
                push_char(&mut text, '\n');
                proof {
                    assert(text@ + string_scan(s, self.pos as int, escape).0 =~= text@.drop_last()
                        + (seq!['\n'] + string_scan(s, self.pos as int, escape).0));
                }
            } else {
                self.pos = self.pos + 1;
                push_char(&mut text, c);
                escape = false;
                proof {
                    assert(text@ + string_scan(s, self.pos as int, false).0 =~= text@.drop_last()
                        + (seq![c] + string_scan(s, self.pos as int, false).0));
                }
            }
        }
        text
    }

    /// Read a number: a sign, digits, at most one decimal point.  The cursor
    /// stands on the first character of the number (or just past a consumed
    /// leading minus, with `def_negative` set).
    pub fn read_number(&mut self, def_negative: bool) -> (r: Result<NumberLit, TokenizeError>)
        requires
            old(self).pos <= old(self).input@.len(),
        ensures
            final(self).input@ == old(self).input@,
            final(self).pos <= old(self).input@.len(),
            ({
                let n = spec_read_number(old(self).input@, old(self).pos as int, def_negative);
                match r {
                    Ok(lit) => n.ok && lit.negative == n.negative && lit.whole@ == n.whole
                        && lit.frac@ == n.frac && final(self).pos == n.end,
                    Err(e) => !n.ok && e == n.err,
                }
            }),
    {
        let ghost s = self.input@;
        let ghost pos0 = self.pos as int;
        let negative = if def_negative {
            true
        } else {
            if self.pos < self.input.len() && self.input[self.pos] == '-' {
                self.pos = self.pos + 1;
                true
            } else {
                false
            }
        };
        let ghost start = self.pos as int;
        let n = self.input.len();
        let mut pre = String::new();
        let mut post = String::new();
        let mut pre_empty = true;
        let mut post_empty = true;
        let mut dec_seen = false;

        proof {
            lemma_num_scan_bounds(s, start, false);
        }
        loop
            invariant
                self.input@ == s,
                n == s.len(),
                old(self).input@ == s,
                old(self).pos == pos0,
                negative == (def_negative || (0 <= pos0 < s.len() && s[pos0] == '-')),
                start == if !def_negative && 0 <= pos0 < s.len() && s[pos0] == '-' {
                    pos0 + 1
                } else {
                    pos0
                },
                0 <= start <= self.pos <= s.len(),
                pre_empty == (pre@.len() == 0),
                post_empty == (post@.len() == 0),
                num_scan(s, start, false).ok == num_scan(s, self.pos as int, dec_seen).ok,
                num_scan(s, start, false).ok ==> num_scan(s, start, false).pre =~= pre@ + num_scan(
                    s,
                    self.pos as int,
                    dec_seen,
                ).pre,
                num_scan(s, start, false).ok ==> num_scan(s, start, false).post =~= post@
                    + num_scan(s, self.pos as int, dec_seen).post,
                num_scan(s, start, false).end == num_scan(s, self.pos as int, dec_seen).end,
            ensures
                self.input@ == s,
                start <= self.pos <= s.len(),
                pre_empty == (pre@.len() == 0),
                post_empty == (post@.len() == 0),
                num_scan(s, start, false).ok,
                num_scan(s, start, false).pre =~= pre@,
                num_scan(s, start, false).post =~= post@,
                num_scan(s, start, false).end == self.pos,
            decreases s.len() - self.pos,
        {
            proof {
                lemma_num_scan_bounds(s, self.pos as int, dec_seen);
            }
            if self.pos >= n {
                proof {
                    assert(pre@ + Seq::<char>::empty() =~= pre@);
                    assert(post@ + Seq::<char>::empty() =~= post@);
                }
                break ;
            }
            let c = self.input[self.pos];
            if c == '.' && dec_seen {
                return Err(TokenizeError::UnexpectedCharacter('.'));
            } else if c == '.' {
                dec_seen = true;
                self.pos = self.pos + 1;
            } else if is_digit_char(c) {
                if dec_seen {
                    push_char(&mut post, c);
                    post_empty = false;
                    proof {
                        assert(post@ + num_scan(s, self.pos + 1 as int, dec_seen).post
                            =~= post@.drop_last() + (seq![c] + num_scan(
                            s,
                            self.pos + 1 as int,
                            dec_seen,
                        ).post));
                    }
                } else {
                    push_char(&mut pre, c);
                    pre_empty = false;
                    proof {
                        assert(pre@ + num_scan(s, self.pos + 1 as int, dec_seen).pre
                            =~= pre@.drop_last() + (seq![c] + num_scan(
                            s,
                            self.pos + 1 as int,
                            dec_seen,
                        ).pre));
                    }
                }
                self.pos = self.pos + 1;
            } else {
                proof {
                    assert(pre@ + Seq::<char>::empty() =~= pre@);
                    assert(post@ + Seq::<char>::empty() =~= post@);
                }
                break ;
            }
        }

        if pre_empty && post_empty {
            return Err(TokenizeError::NumberParseError);
        }
        if pre_empty {
            push_char(&mut pre, '0');
            proof {
                assert(pre@ =~= seq!['0']);
            }
        }
        if post_empty {
            push_char(&mut post, '0');
            proof {
                assert(post@ =~= seq!['0']);
            }
        }
        Ok(NumberLit { negative, whole: pre, frac: post })
    }
}

/// Where the comment that starts at `i` ends: the position of the next
/// newline, which stays in the input, or the end of the input.
pub open spec fn comment_end(s: Seq<char>, i: int) -> int
    decreases s.len() - i,
{
    if 0 <= i < s.len() {
        if s[i] == '\n' {
            i
        } else {
            comment_end(s, i + 1)
        }
    } else {
        s.len() as int
    }
}

pub proof fn lemma_comment_end_bounds(s: Seq<char>, i: int)
    requires
        0 <= i <= s.len(),
    ensures
        i <= comment_end(s, i) <= s.len(),
    decreases s.len() - i,
{
    if i < s.len() && s[i] != '\n' {
        lemma_comment_end_bounds(s, i + 1);
    }
}

/// A token followed by the outcome of reading on: the token goes in front
/// unless reading on failed.
pub open spec fn prepend_token(t: TokenModel, r: Result<Seq<TokenModel>, TokenizeError>) -> Result<
    Seq<TokenModel>,
    TokenizeError,
> {
    match r {
        Ok(v) => Ok(seq![t] + v),
        Err(e) => Err(e),
    }
}

/// Already-read tokens followed by the outcome of reading on.
pub open spec fn prepend_all(
    pre: Seq<TokenModel>,
    r: Result<Seq<TokenModel>, TokenizeError>,
) -> Result<Seq<TokenModel>, TokenizeError> {
    match r {
        Ok(v) => Ok(pre + v),
        Err(e) => Err(e),
    }
}

proof fn lemma_prepend_all_step(
    pre: Seq<TokenModel>,
    t: TokenModel,
    r: Result<Seq<TokenModel>, TokenizeError>,
)
    ensures
        prepend_all(pre, prepend_token(t, r)) == prepend_all(pre.push(t), r),
{
    match r {
        Ok(v) => {
            assert(pre + (seq![t] + v) =~= pre.push(t) + v);
        },
        Err(e) => {},
    }
}

/// What the token stream of `s`, read from position `i`, is.  Each arm reads
/// one token (or skips one stretch of whitespace or one comment) exactly as
/// `tokenize` does, and reads on behind it.
pub open spec fn spec_tokenize(s: Seq<char>, i: int) -> Result<Seq<TokenModel>, TokenizeError>
    decreases s.len() - i,
    via spec_tokenize_decreases
{
    if i < 0 || i >= s.len() {
        Ok(Seq::empty())
    } else {
        let c = s[i];
        if whitespace_char(c) {
            spec_tokenize(s, i + 1)
        } else if letter_char(c) {
            let j = ident_end(s, i);
            let w = s.subrange(i, j);
            if w == "true"@ || w == "yes"@ {
                prepend_token(TokenModel::Boolean(true), spec_tokenize(s, j))
            } else if w == "false"@ || w == "no"@ {
                prepend_token(TokenModel::Boolean(false), spec_tokenize(s, j))
            } else {
                prepend_token(TokenModel::Identifier(w), spec_tokenize(s, j))
            }
        } else if c == '"' {
            let r = string_scan(s, i + 1, false);
            prepend_token(TokenModel::Text(r.0), spec_tokenize(s, r.1))
        } else if digit_char(c) {
            let nr = spec_read_number(s, i, false);
            if nr.ok {
                prepend_token(
                    TokenModel::Number { negative: nr.negative, whole: nr.whole, frac: nr.frac },
                    spec_tokenize(s, nr.end),
                )
            } else {
                Err(nr.err)
            }
        } else if c == '#' {
            spec_tokenize(s, comment_end(s, i))
        } else if c == '+' {
            prepend_token(TokenModel::Op(Op::Add), spec_tokenize(s, i + 1))
        } else if c == '-' {
            if i + 1 >= s.len() {
                Err(TokenizeError::UnexpectedEnd)
            } else if digit_char(s[i + 1]) {
                let nr = spec_read_number(s, i + 1, true);
                if nr.ok {
                    prepend_token(
                        TokenModel::Number {
                            negative: nr.negative,
                            whole: nr.whole,
                            frac: nr.frac,
                        },
                        spec_tokenize(s, nr.end),
                    )
                } else {
                    Err(nr.err)
                }
            } else {
                prepend_token(TokenModel::Op(Op::Sub), spec_tokenize(s, i + 1))
            }
        } else if c == '*' {
            prepend_token(TokenModel::Op(Op::Mul), spec_tokenize(s, i + 1))
        } else if c == '/' {
            prepend_token(TokenModel::Op(Op::Div), spec_tokenize(s, i + 1))
        } else if c == '<' {
            prepend_token(TokenModel::Op(Op::Lt), spec_tokenize(s, i + 1))
        } else if c == '>' {
            prepend_token(TokenModel::Op(Op::Gt), spec_tokenize(s, i + 1))
        } else if c == ',' {
            prepend_token(TokenModel::Sep(Sep::Comma), spec_tokenize(s, i + 1))
        } else if c == '{' {
            prepend_token(TokenModel::Sep(Sep::BraceOpen), spec_tokenize(s, i + 1))
        } else if c == '}' {
            prepend_token(TokenModel::Sep(Sep::BraceClose), spec_tokenize(s, i + 1))
        } else if c == '(' {
            prepend_token(TokenModel::Sep(Sep::ParensOpen), spec_tokenize(s, i + 1))
        } else if c == ')' {
            prepend_token(TokenModel::Sep(Sep::ParensClose), spec_tokenize(s, i + 1))
        } else if c == '[' {
            prepend_token(TokenModel::Sep(Sep::BracketOpen), spec_tokenize(s, i + 1))
        } else if c == ']' {
            prepend_token(TokenModel::Sep(Sep::BracketClose), spec_tokenize(s, i + 1))
        } else if c == ':' {
            prepend_token(TokenModel::Sep(Sep::Colon), spec_tokenize(s, i + 1))
        } else if c == '=' {
            prepend_token(TokenModel::Op(Op::Assign), spec_tokenize(s, i + 1))
        } else if c == '.' {
            if i + 1 >= s.len() {
                Err(TokenizeError::UnexpectedEnd)
            } else if s[i + 1] == '.' {
                prepend_token(TokenModel::Op(Op::RangeExclusive), spec_tokenize(s, i + 2))
            } else {
                Err(TokenizeError::UnexpectedCharacter(s[i + 1]))
            }
        } else {
            Err(TokenizeError::UnexpectedCharacter(c))
        }
    }
}

#[via_fn]
proof fn spec_tokenize_decreases(s: Seq<char>, i: int) {
    if 0 <= i < s.len() {
        let c = s[i];
        if letter_char(c) {
            assert(ident_char(c));
            lemma_ident_end_bounds(s, i + 1);
            assert(ident_end(s, i) == ident_end(s, i + 1));
        }
        if c == '"' {
            lemma_string_scan_bounds(s, i + 1, false);
        }
        if digit_char(c) {
            lemma_num_scan_bounds(s, i + 1, false);
            assert(num_scan(s, i, false).end == num_scan(s, i + 1, false).end);
        }
        if c == '#' {
            lemma_comment_end_bounds(s, i + 1);
            assert(comment_end(s, i) == comment_end(s, i + 1));
        }
        if c == '-' && i + 1 < s.len() && digit_char(s[i + 1]) {
            lemma_num_scan_bounds(s, i + 2, false);
            assert(num_scan(s, i + 1, false).end == num_scan(s, i + 2, false).end);
        }
    }
}

/// The token stream a result carries, token by token.
pub open spec fn tokens_model(r: Result<Vec<Token>, TokenizeError>) -> Result<
    Seq<TokenModel>,
    TokenizeError,
> {
    match r {
        Ok(v) => Ok(v@.map_values(|t: Token| t@)),
        Err(e) => Err(e),
    }
}

/// Whether a string holds exactly the given text.
fn eq_str(a: &String, b: &str) -> (r: bool)
    ensures
        r == (a@ == b@),
{
    let bs = String::from_str(b);
    a.eq(&bs)
}

impl Tokenizer {
    /// Tokenize the whole input, yielding the stream that `spec_tokenize`
    /// describes, or the first error it describes.
    pub fn tokenize(self) -> (r: Result<Vec<Token>, TokenizeError>)
        requires
            self.pos <= self.input@.len(),
        ensures
            tokens_model(r) == spec_tokenize(self.input@, self.pos as int),
    {
        let mut this = self;
        let ghost s = this.input@;
        let ghost pos0 = this.pos as int;
        let n = this.input.len();
        let mut tokens: Vec<Token> = Vec::new();
        loop
            invariant
                this.input@ == s,
                s == self.input@,
                pos0 == self.pos as int,
                n == s.len(),
                0 <= pos0,
                this.pos <= s.len(),
                spec_tokenize(s, pos0) == prepend_all(
                    tokens@.map_values(|t: Token| t@),
                    spec_tokenize(s, this.pos as int),
                ),
            ensures
                this.input@ == s,
                this.pos >= s.len(),
                spec_tokenize(s, pos0) == prepend_all(
                    tokens@.map_values(|t: Token| t@),
                    spec_tokenize(s, this.pos as int),
                ),
            decreases s.len() - this.pos,
        {
            if this.pos >= n {
                break ;
            }
            let ghost pre = tokens@.map_values(|t: Token| t@);
            let ghost p = this.pos as int;
            let c = this.input[this.pos];
            if is_whitespace_char(c) {
                this.pos = this.pos + 1;
            } else if is_letter_char(c) {
                let ident = this.read_identifier();
                proof {
                    assert(ident_char(c));
                    lemma_ident_end_bounds(s, p + 1);
                    assert(ident_end(s, p) == ident_end(s, p + 1));
                }
                let ghost w = s.subrange(p, ident_end(s, p));
                let tok: Token = if eq_str(&ident, "true") || eq_str(&ident, "yes") {
                    Token::Boolean(true)
                } else if eq_str(&ident, "false") || eq_str(&ident, "no") {
                    Token::Boolean(false)
                } else {
                    Token::Identifier(ident)
                };
                proof {
                    lemma_prepend_all_step(pre, tok@, spec_tokenize(s, this.pos as int));
                    assert(tokens@.push(tok).map_values(|t: Token| t@) =~= pre.push(tok@));
                }
                tokens.push(tok);
            } else if c == '"' {
                let text = this.read_string();
                let tok = Token::Text(text);
                proof {
                    lemma_prepend_all_step(pre, tok@, spec_tokenize(s, this.pos as int));
                    assert(tokens@.push(tok).map_values(|t: Token| t@) =~= pre.push(tok@));
                }
                tokens.push(tok);
            } else if is_digit_char(c) {
                match this.read_number(false) {
                    Ok(lit) => {
                        proof {
                            lemma_num_scan_bounds(s, p + 1, false);
                            assert(num_scan(s, p, false).end == num_scan(s, p + 1, false).end);
                        }
                        let tok = Token::Number(lit);
                        proof {
                            lemma_prepend_all_step(pre, tok@, spec_tokenize(s, this.pos as int));
                            assert(tokens@.push(tok).map_values(|t: Token| t@) =~= pre.push(tok@));
                        }
                        tokens.push(tok);
                    },
                    Err(e) => {
                        proof {
                            assert(!spec_read_number(s, p, false).ok);
                            assert(spec_tokenize(s, p) == Err::<Seq<TokenModel>, TokenizeError>(e));
                        }
                        return Err(e);
                    },
                }
            } else if c == '#' {
                while this.pos < n && this.input[this.pos] != '\n'
                    invariant
                        this.input@ == s,
                        n == s.len(),
                        0 <= p <= this.pos <= s.len(),
                        comment_end(s, p) == comment_end(s, this.pos as int),
                    decreases s.len() - this.pos,
                {
                    this.pos = this.pos + 1;
                }
                proof {
                    lemma_comment_end_bounds(s, p);
                    assert(comment_end(s, this.pos as int) == this.pos as int);
                }
            } else if c == '+' {
                let tok = Token::Op(Op::Add);
                proof {
                    lemma_prepend_all_step(pre, tok@, spec_tokenize(s, p + 1));
                    assert(tokens@.push(tok).map_values(|t: Token| t@) =~= pre.push(tok@));
                }
                this.pos = this.pos + 1;
                tokens.push(tok);
            } else if c == '-' {
                this.pos = this.pos + 1;
                if this.pos >= n {
                    return Err(TokenizeError::UnexpectedEnd);
                }
                let c2 = this.input[this.pos];
                if is_digit_char(c2) {
                    match this.read_number(true) {
                        Ok(lit) => {
                            proof {
                                lemma_num_scan_bounds(s, p + 2, false);
                                assert(num_scan(s, p + 1, false).end == num_scan(
                                    s,
                                    p + 2,
                                    false,
                                ).end);
                            }
                            let tok = Token::Number(lit);
                            proof {
                                lemma_prepend_all_step(
                                    pre,
                                    tok@,
                                    spec_tokenize(s, this.pos as int),
                                );
                                assert(tokens@.push(tok).map_values(|t: Token| t@) =~= pre.push(
                                    tok@,
                                ));
                            }
                            tokens.push(tok);
                        },
                        Err(e) => {
                            return Err(e);
                        },
                    }
                } else {
                    let tok = Token::Op(Op::Sub);
                    proof {
                        lemma_prepend_all_step(pre, tok@, spec_tokenize(s, p + 1));
                        assert(tokens@.push(tok).map_values(|t: Token| t@) =~= pre.push(tok@));
                    }
                    tokens.push(tok);
                }
            } else if c == '*' || c == '/' || c == '<' || c == '>' || c == ',' || c == '{' || c
                == '}' || c == '(' || c == ')' || c == '[' || c == ']' || c == ':' || c == '=' {
                let tok: Token = if c == '*' {
                    Token::Op(Op::Mul)
                } else if c == '/' {
                    Token::Op(Op::Div)
                } else if c == '<' {
                    Token::Op(Op::Lt)
                } else if c == '>' {
                    Token::Op(Op::Gt)
                } else if c == ',' {
                    Token::Sep(Sep::Comma)
                } else if c == '{' {
                    Token::Sep(Sep::BraceOpen)
                } else if c == '}' {
                    Token::Sep(Sep::BraceClose)
                } else if c == '(' {
                    Token::Sep(Sep::ParensOpen)
                } else if c == ')' {
                    Token::Sep(Sep::ParensClose)
                } else if c == '[' {
                    Token::Sep(Sep::BracketOpen)
                } else if c == ']' {
                    Token::Sep(Sep::BracketClose)
                } else if c == ':' {
                    Token::Sep(Sep::Colon)
                } else {
                    Token::Op(Op::Assign)
                };
                proof {
                    lemma_prepend_all_step(pre, tok@, spec_tokenize(s, p + 1));
                    assert(tokens@.push(tok).map_values(|t: Token| t@) =~= pre.push(tok@));
                }
                this.pos = this.pos + 1;
                tokens.push(tok);
            } else if c == '.' {
                this.pos = this.pos + 1;
                if this.pos >= n {
                    return Err(TokenizeError::UnexpectedEnd);
                }
                let c2 = this.input[this.pos];
                if c2 == '.' {
                    this.pos = this.pos + 1;
                    let tok = Token::Op(Op::RangeExclusive);
                    proof {
                        lemma_prepend_all_step(pre, tok@, spec_tokenize(s, p + 2));
                        assert(tokens@.push(tok).map_values(|t: Token| t@) =~= pre.push(tok@));
                    }
                    tokens.push(tok);
                } else {
                    return Err(TokenizeError::UnexpectedCharacter(c2));
                }
            } else {
                proof {
                    assert(spec_tokenize(s, p) == Err::<Seq<TokenModel>, TokenizeError>(
                        TokenizeError::UnexpectedCharacter(c),
                    ));
                }
                return Err(TokenizeError::UnexpectedCharacter(c));
            }
        }
        proof {
            assert(tokens@.map_values(|t: Token| t@) + Seq::<TokenModel>::empty()
                =~= tokens@.map_values(|t: Token| t@));
        }
        Ok(tokens)
    }
}

} // verus!
