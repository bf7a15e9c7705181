use vstd::prelude::*;

verus! {

/// The tag of a [`Token`], without its payload.
#[derive(Clone, Copy, Debug, PartialEq, Eq, Structural)]
pub enum TokenKind {
    Integer,
    Plus,
    Minus,
    Star,
    Slash,
    Lparen,
    Rparen,
    Error,
}

/// The smallest meaningful unit of an input line.
#[derive(Debug, PartialEq, Eq)]
pub enum Token {
    Integer(i32),
    Plus,
    Minus,
    Star,
    Slash,
    Lparen,
    Rparen,
    /// Text that is no part of any expression: an unrecognised character, or
    /// a run of digits whose value does not fit an `i32`.
    Error(String),
}

/// The mathematical value of a [`Token`]: the text of an `Error` is a
/// sequence of characters.
pub enum TokenView {
    Integer(i32),
    Plus,
    Minus,
    Star,
    Slash,
    Lparen,
    Rparen,
    Error(Seq<char>),
}

impl TokenView {
    pub open spec fn kind(self) -> TokenKind {
        match self {
            TokenView::Integer(_) => TokenKind::Integer,
            TokenView::Plus => TokenKind::Plus,
            TokenView::Minus => TokenKind::Minus,
            TokenView::Star => TokenKind::Star,
            TokenView::Slash => TokenKind::Slash,
            TokenView::Lparen => TokenKind::Lparen,
            TokenView::Rparen => TokenKind::Rparen,
            TokenView::Error(_) => TokenKind::Error,
        }
    }
}

impl View for Token {
    type V = TokenView;

    open spec fn view(&self) -> TokenView {
        match self {
            Token::Integer(value) => TokenView::Integer(*value),
            Token::Plus => TokenView::Plus,
            Token::Minus => TokenView::Minus,
            Token::Star => TokenView::Star,
            Token::Slash => TokenView::Slash,
            Token::Lparen => TokenView::Lparen,
            Token::Rparen => TokenView::Rparen,
            Token::Error(text) => TokenView::Error(text@),
        }
    }
}

impl DeepView for Token {
    type V = TokenView;

    open spec fn deep_view(&self) -> TokenView {
        self@
    }
}

impl Clone for Token {
    fn clone(&self) -> (copy: Token)
        ensures
            copy == *self,
    {
        match self {
            Token::Integer(value) => Token::Integer(*value),
            Token::Plus => Token::Plus,
            Token::Minus => Token::Minus,
            Token::Star => Token::Star,
            Token::Slash => Token::Slash,
            Token::Lparen => Token::Lparen,
            Token::Rparen => Token::Rparen,
            Token::Error(text) => Token::Error(text.clone()),
        }
    }
}

impl Token {
    /// The tag of this token.
    pub fn kind(&self) -> (kind: TokenKind)
        ensures
            kind == self@.kind(),
    {
        match self {
            Token::Integer(_) => TokenKind::Integer,
            Token::Plus => TokenKind::Plus,
            Token::Minus => TokenKind::Minus,
            Token::Star => TokenKind::Star,
            Token::Slash => TokenKind::Slash,
            Token::Lparen => TokenKind::Lparen,
            Token::Rparen => TokenKind::Rparen,
            Token::Error(_) => TokenKind::Error,
        }
    }
}

/// Whether `c` is one of the ten decimal digits `0` to `9`.
pub open spec fn spec_is_digit(c: char) -> bool {
    '0' <= c && c <= '9'
}

/// Whether `c` separates tokens inside a line: a space or a tab.
pub open spec fn is_blank(c: char) -> bool {
    c == ' ' || c == '\t'
}

/// Whether `c` is white space: the code points that Unicode gives the
/// property `White_Space`.
pub open spec fn spec_is_whitespace(c: char) -> bool {
    ||| '\u{9}' <= c && c <= '\u{d}'
    ||| c == ' '
    ||| c == '\u{85}'
    ||| c == '\u{a0}'
    ||| c == '\u{1680}'
    ||| '\u{2000}' <= c && c <= '\u{200a}'
    ||| c == '\u{2028}'
    ||| c == '\u{2029}'
    ||| c == '\u{202f}'
    ||| c == '\u{205f}'
    ||| c == '\u{3000}'
}

/// `s` without its leading white space.
pub open spec fn trim_start(s: Seq<char>) -> Seq<char>
    decreases s.len(),
{
    if s.len() > 0 && is_whitespace(s.first()) {
        trim_start(s.drop_first())
    } else {
        s
    }
}

/// `s` without its trailing white space.
pub open spec fn trim_end(s: Seq<char>) -> Seq<char>
    decreases s.len(),
{
    if s.len() > 0 && is_whitespace(s.last()) {
        trim_end(s.drop_last())
    } else {
        s
    }
}

/// `s` without the white space that surrounds it.
pub open spec fn trim(s: Seq<char>) -> Seq<char> {
    trim_end(trim_start(s))
}

/// The number that the digit `c` stands for.
pub open spec fn digit_value(c: char) -> nat {
    (c as int - '0' as int) as nat
}

/// The number that a sequence of digits denotes in base ten; the empty
/// sequence denotes zero.
pub open spec fn decimal_value(digits: Seq<char>) -> nat
    decreases digits.len(),
{
    if digits.len() == 0 {
        0
    } else {
        decimal_value(digits.drop_last()) * 10 + digit_value(digits.last())
    }
}

/// The length of the longest prefix of `s` that holds digits only.
pub open spec fn leading_digits(s: Seq<char>) -> nat
    decreases s.len(),
{
    if s.len() > 0 && is_digit(s.first()) {
        1 + leading_digits(s.drop_first())
    } else {
        0
    }
}

/// The digits at the start of `s` are a part of `s`, and not an empty one
/// where `s` starts with a digit.
pub proof fn lemma_leading_digits_bounds(s: Seq<char>)
    ensures
        leading_digits(s) <= s.len(),
        s.len() > 0 && is_digit(s.first()) ==> leading_digits(s) >= 1,
    decreases s.len(),
{
    if s.len() > 0 && is_digit(s.first()) {
        lemma_leading_digits_bounds(s.drop_first());
    }
}

/// The token of a run of digits: the integer that they denote, or, where that
/// is more than an `i32` holds, an error that carries the digits.
pub open spec fn number(digits: Seq<char>) -> TokenView {
    if decimal_value(digits) <= i32::MAX {
        TokenView::Integer(decimal_value(digits) as i32)
    } else {
        TokenView::Error(digits)
    }
}

/// The token of a character that is neither a digit nor blank: an operator,
/// a parenthesis, or an error that carries the character.
pub open spec fn symbol(c: char) -> TokenView {
    if c == '+' {
        TokenView::Plus
    } else if c == '-' {
        TokenView::Minus
    } else if c == '*' {
        TokenView::Star
    } else if c == '/' {
        TokenView::Slash
    } else if c == '(' {
        TokenView::Lparen
    } else if c == ')' {
        TokenView::Rparen
    } else {
        TokenView::Error(seq![c])
    }
}

/// The tokens of `s`, from left to right. Every maximal run of digits gives
/// one token, blanks give none, and every other character gives one.
pub open spec fn scan(s: Seq<char>) -> Seq<TokenView>
    decreases s.len(),
{
    if s.len() == 0 {
        Seq::empty()
    } else if is_digit(s.first()) {
        let n = leading_digits(s) as int;
        proof {
            lemma_leading_digits_bounds(s);
        }
        seq![number(s.take(n))] + scan(s.skip(n))
    } else if is_blank(s.first()) {
        scan(s.drop_first())
    } else {
        seq![symbol(s.first())] + scan(s.drop_first())
    }
}

/// The tokens of a line of text: those of the line without the white space
/// around it.
pub open spec fn lexed(line: Seq<char>) -> Seq<TokenView> {
    scan(trim(line))
}

/// `String::push`: the character is added at the end of the text, and the
/// text before it stays as it was.
pub assume_specification[ String::push ](text: &mut String, ch: char)
    ensures
        final(text)@ == old(text)@.push(ch),
;

/// Whether `c` is one of the ten decimal digits `0` to `9`.
#[verifier::when_used_as_spec(spec_is_digit)]
pub fn is_digit(c: char) -> (digit: bool)
    ensures
        digit == spec_is_digit(c),
{
    '0' <= c && c <= '9'
}

/// Whether `c` is white space: a code point with Unicode's property
/// `White_Space`.
#[verifier::when_used_as_spec(spec_is_whitespace)]
pub fn is_whitespace(c: char) -> (space: bool)
    ensures
        space == spec_is_whitespace(c),
{
    ('\u{9}' <= c && c <= '\u{d}') || c == ' ' || c == '\u{85}' || c == '\u{a0}' || c
        == '\u{1680}' || ('\u{2000}' <= c && c <= '\u{200a}') || c == '\u{2028}' || c
        == '\u{2029}' || c == '\u{202f}' || c == '\u{205f}' || c == '\u{3000}'
}

/// The characters of `line`, in order.
fn characters(line: &str) -> (chars: Vec<char>)
    ensures
        chars@ == line@,
{
    let mut chars: Vec<char> = Vec::new();
    for c in it: line.chars()
        invariant
            it.seq() == line@,
            chars@ == it.seq().take(it.index()),
    {
        chars.push(c);
    }
    chars
}

/// The bounds of `chars` without the white space around it.
fn trim_bounds(chars: &Vec<char>) -> (bounds: (usize, usize))
    ensures
        bounds.0 <= bounds.1 <= chars.len(),
        chars@.subrange(bounds.0 as int, bounds.1 as int) == trim(chars@),
{
    let mut start: usize = 0;
    assert(chars@.skip(0) =~= chars@);
    while start < chars.len() && is_whitespace(chars[start])
        invariant
            start <= chars.len(),
            trim_start(chars@) == trim_start(chars@.skip(start as int)),
        decreases chars.len() - start,
    {
        assert(chars@.skip(start as int).drop_first() =~= chars@.skip(start as int + 1));
        start = start + 1;
    }
    let mut end: usize = chars.len();
    while end > start && is_whitespace(chars[end - 1])
        invariant
            start <= end <= chars.len(),
            trim(chars@) == trim_end(chars@.subrange(start as int, end as int)),
        decreases end,
    {
        assert(chars@.subrange(start as int, end as int).drop_last() =~= chars@.subrange(
            start as int,
            end as int - 1,
        ));
        end = end - 1;
    }
    (start, end)
}

/// The text made of the characters of `chars` from `from` up to `to`.
fn text_of(chars: &Vec<char>, from: usize, to: usize) -> (text: String)
    requires
        from <= to <= chars.len(),
    ensures
        text@ == chars@.subrange(from as int, to as int),
{
    let mut text = String::new();
    let mut i: usize = from;
    while i < to
        invariant
            from <= i <= to <= chars.len(),
            text@ == chars@.subrange(from as int, i as int),
        decreases to - i,
    {
        text.push(chars[i]);
        i = i + 1;
    }
    text
}

/// The token of the run of digits that starts at `from`, and the place where
/// the run ends.
fn lex_number(chars: &Vec<char>, from: usize, end: usize) -> (found: (Token, usize))
    requires
        from < end <= chars.len(),
        is_digit(chars@[from as int]),
    ensures
        found.1 == from + leading_digits(chars@.subrange(from as int, end as int)),
        from < found.1 <= end,
        found.0@ == number(chars@.subrange(from as int, found.1 as int)),
{
    let ghost run = chars@.subrange(from as int, end as int);
    let mut value: i32 = 0;
    let mut fits = true;
    let mut to: usize = from;
    while to < end && is_digit(chars[to])
        invariant
            from <= to <= end <= chars.len(),
            run == chars@.subrange(from as int, end as int),
            leading_digits(run) == (to - from) + leading_digits(
                chars@.subrange(to as int, end as int),
            ),
            fits ==> value == decimal_value(chars@.subrange(from as int, to as int)),
            !fits ==> decimal_value(chars@.subrange(from as int, to as int)) > i32::MAX,
            0 <= value,
        decreases end - to,
    {
        let ghost before = chars@.subrange(from as int, to as int);
        let ghost after = chars@.subrange(from as int, to as int + 1);
        assert(after.drop_last() =~= before);
        assert(chars@.subrange(to as int, end as int).drop_first() =~= chars@.subrange(
            to as int + 1,
            end as int,
        ));
        if fits {
            let digit: i64 = (chars[to] as u32 - '0' as u32) as i64;
            let wide: i64 = value as i64 * 10 + digit;
            if wide <= i32::MAX as i64 {
                value = wide as i32;
            } else {
                fits = false;
            }
        }
        to = to + 1;
    }
    let token = if fits {
        Token::Integer(value)
    } else {
        Token::Error(text_of(chars, from, to))
    };
    (token, to)
}

/// The token of a character that is neither a digit nor blank.
fn lex_symbol(c: char) -> (token: Token)
    ensures
        token@ == symbol(c),
{
    if c == '+' {
        Token::Plus
    } else if c == '-' {
        Token::Minus
    } else if c == '*' {
        Token::Star
    } else if c == '/' {
        Token::Slash
    } else if c == '(' {
        Token::Lparen
    } else if c == ')' {
        Token::Rparen
    } else {
        let mut unknown = String::new();
        unknown.push(c);
        Token::Error(unknown)
    }
}

/// Splits a line of text into tokens, from left to right. White space around
/// the line is dropped, and spaces and tabs inside it separate tokens. Every
/// maximal run of digits gives an `Integer`, or an `Error` with the digits
/// where their value does not fit; an operator or a parenthesis gives its
/// token; any other character gives an `Error` with that character.
pub fn lex(line: &str) -> (tokens: Vec<Token>)
    ensures
        tokens.deep_view() == lexed(line@),
        line@.len() > 0 && (forall|i: int| 0 <= i < line@.len() ==> is_digit(#[trigger] line@[i]))
            ==> tokens.deep_view() == seq![number(line@)],
{
    proof {
        if line@.len() > 0 && (forall|i: int|
            0 <= i < line@.len() ==> is_digit(#[trigger] line@[i])) {
            lemma_digits_lex_to_one_number(line@);
        }
    }
    let chars = characters(line);
    let (start, end) = trim_bounds(&chars);
    let ghost text = chars@.subrange(start as int, end as int);
    let mut tokens: Vec<Token> = Vec::new();
    let mut at: usize = start;
    while at < end
        invariant
            start <= at <= end <= chars.len(),
            text == chars@.subrange(start as int, end as int),
            tokens.deep_view() + scan(chars@.subrange(at as int, end as int)) == scan(text),
        decreases end - at,
    {
        let ghost rest = chars@.subrange(at as int, end as int);
        let c = chars[at];
        if is_digit(c) {
            let (token, next) = lex_number(&chars, at, end);
            proof {
                assert(rest.take(next - at) =~= chars@.subrange(at as int, next as int));
                assert(rest.skip(next - at) =~= chars@.subrange(next as int, end as int));
            }
            tokens.push(token);
            at = next;
        } else {
            assert(rest.drop_first() =~= chars@.subrange(at as int + 1, end as int));
            if c != ' ' && c != '\t' {
                let token = lex_symbol(c);
                tokens.push(token);
            }
            at = at + 1;
        }
    }
    tokens
}

/// Whether the tokens at `i` and `i + 1` stand for a product that the line
/// does not spell out: an integer right before an opening parenthesis, or a
/// closing parenthesis right before an integer.
pub open spec fn implicit_product(tokens: Seq<TokenView>, i: int) -> bool {
    &&& 0 <= i
    &&& i + 1 < tokens.len()
    &&& {
        ||| tokens[i] is Integer && tokens[i + 1] is Lparen
        ||| tokens[i] is Rparen && tokens[i + 1] is Integer
    }
}

/// What the token at `i` becomes: itself, followed by a `Star` where an
/// implicit product follows it.
pub open spec fn resolved_at(tokens: Seq<TokenView>, i: int) -> Seq<TokenView> {
    if implicit_product(tokens, i) {
        seq![tokens[i], TokenView::Star]
    } else {
        seq![tokens[i]]
    }
}

/// What the first `n` tokens become.
pub open spec fn resolved_prefix(tokens: Seq<TokenView>, n: nat) -> Seq<TokenView>
    decreases n,
{
    if n == 0 {
        Seq::empty()
    } else {
        resolved_prefix(tokens, (n - 1) as nat) + resolved_at(tokens, n - 1)
    }
}

/// `tokens` with every implicit product made explicit: the same tokens in
/// the same order, with a `Star` between the two tokens of each implicit
/// product.
pub open spec fn resolved(tokens: Seq<TokenView>) -> Seq<TokenView> {
    resolved_prefix(tokens, tokens.len())
}

/// Whether `tokens` holds no implicit product.
pub open spec fn is_explicit(tokens: Seq<TokenView>) -> bool {
    forall|i: int| !#[trigger] implicit_product(tokens, i)
}

/// Makes implicit products explicit: a `Star` is put before an opening
/// parenthesis that follows an integer, and after a closing parenthesis that
/// an integer follows. No token is dropped or changed.
pub fn resolve(tokens: Vec<Token>) -> (resolved_tokens: Vec<Token>)
    ensures
        resolved_tokens.deep_view() == resolved(tokens.deep_view()),
        is_explicit(resolved_tokens.deep_view()),
        is_explicit(tokens.deep_view()) ==> resolved_tokens.deep_view() == tokens.deep_view(),
{
    let ghost source = tokens.deep_view();
    let mut resolved_tokens: Vec<Token> = Vec::new();
    let mut after_integer = false;
    let mut i: usize = 0;
    while i < tokens.len()
        invariant
            i <= tokens.len(),
            source == tokens.deep_view(),
            after_integer == (i > 0 && source[i - 1] is Integer),
            resolved_tokens.deep_view() + (if i > 0 && source[i - 1] is Integer
                && implicit_product(source, i - 1) {
                seq![TokenView::Star]
            } else {
                Seq::empty()
            }) == resolved_prefix(source, i as nat),
        decreases tokens.len() - i,
    {
        match &tokens[i] {
            Token::Lparen => {
                if after_integer {
                    resolved_tokens.push(Token::Star);
                }
                resolved_tokens.push(Token::Lparen);
                after_integer = false;
            },
            Token::Rparen => {
                resolved_tokens.push(Token::Rparen);
                if i + 1 < tokens.len() && tokens[i + 1].kind() == TokenKind::Integer {
                    resolved_tokens.push(Token::Star);
                }
                after_integer = false;
            },
            token => {
                let copy = token.clone();
                after_integer = copy.kind() == TokenKind::Integer;
                resolved_tokens.push(copy);
            },
        }
        i = i + 1;
    }
    proof {
        lemma_resolved_is_explicit(source);
        if is_explicit(source) {
            lemma_resolved_of_explicit(source);
        }
    }
    resolved_tokens
}

/// A text made of digits only starts with as many digits as it is long.
proof fn lemma_all_digits_lead(s: Seq<char>)
    requires
        forall|i: int| 0 <= i < s.len() ==> is_digit(#[trigger] s[i]),
    ensures
        leading_digits(s) == s.len(),
    decreases s.len(),
{
    if s.len() > 0 {
        lemma_all_digits_lead(s.drop_first());
    }
}

/// A line that holds digits only, and at least one, is lexed to a single
/// token: the integer that the digits denote where an `i32` holds it, and
/// else an error that carries the line.
pub proof fn lemma_digits_lex_to_one_number(line: Seq<char>)
    requires
        line.len() > 0,
        forall|i: int| 0 <= i < line.len() ==> is_digit(#[trigger] line[i]),
    ensures
        lexed(line) == seq![number(line)],
        decimal_value(line) <= i32::MAX ==> lexed(line) == seq![
            TokenView::Integer(decimal_value(line) as i32),
        ],
{
    lemma_all_digits_lead(line);
    let n = line.len() as int;
    assert(line.take(n) =~= line);
    assert(scan(line.skip(n)) =~= Seq::<TokenView>::empty());
}

/// What the resolver makes of the first `n` tokens holds no implicit
/// product, and ends with the last of them, or with the `Star` that was put
/// behind it.
proof fn lemma_resolved_prefix_is_explicit(tokens: Seq<TokenView>, n: nat)
    requires
        n <= tokens.len(),
    ensures
        is_explicit(resolved_prefix(tokens, n)),
        n > 0 ==> resolved_prefix(tokens, n).len() > 0 && resolved_prefix(tokens, n).last() == (
        if implicit_product(tokens, n - 1) {
            TokenView::Star
        } else {
            tokens[n - 1]
        }),
    decreases n,
{
    if n > 0 {
        let before = resolved_prefix(tokens, (n - 1) as nat);
        let after = resolved_prefix(tokens, n);
        lemma_resolved_prefix_is_explicit(tokens, (n - 1) as nat);
        assert forall|i: int| !#[trigger] implicit_product(after, i) by {
            if 0 <= i && i + 1 < before.len() {
                assert(!implicit_product(before, i));
            }
        }
    }
}

/// The resolver leaves no implicit product behind.
pub proof fn lemma_resolved_is_explicit(tokens: Seq<TokenView>)
    ensures
        is_explicit(resolved(tokens)),
{
    lemma_resolved_prefix_is_explicit(tokens, tokens.len());
}

/// Where the tokens hold no implicit product, the resolver gives back their
/// first `n` as they are.
proof fn lemma_resolved_prefix_of_explicit(tokens: Seq<TokenView>, n: nat)
    requires
        is_explicit(tokens),
        n <= tokens.len(),
    ensures
        resolved_prefix(tokens, n) == tokens.take(n as int),
    decreases n,
{
    if n > 0 {
        lemma_resolved_prefix_of_explicit(tokens, (n - 1) as nat);
    }
}

/// The resolver gives back unchanged a sequence of tokens that holds no
/// implicit product.
pub proof fn lemma_resolved_of_explicit(tokens: Seq<TokenView>)
    requires
        is_explicit(tokens),
    ensures
        resolved(tokens) == tokens,
{
    lemma_resolved_prefix_of_explicit(tokens, tokens.len());
}

/// Resolving twice gives what resolving once gives.
pub proof fn lemma_resolved_is_idempotent(tokens: Seq<TokenView>)
    ensures
        resolved(resolved(tokens)) == resolved(tokens),
{
    lemma_resolved_is_explicit(tokens);
    lemma_resolved_of_explicit(resolved(tokens));
}

} // verus!
