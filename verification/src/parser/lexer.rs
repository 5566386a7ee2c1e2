//! From characters to tokens.

use vstd::prelude::*;
use crate::parser::ast::Position;
use crate::parser::tokens::{lexemes, Lexeme, LexicalError, Token};
use vstd::string::StrSliceExecFns;
use crate::text::{chars_of, is_digit, parse_i64, parsed_i64, text_of};

verus! {

/// Whether a name can begin with `c`.
pub open spec fn is_name_start(c: char) -> bool {
    c == '_' || ('a' <= c <= 'z') || ('A' <= c <= 'Z')
}

/// Whether a name can go on with `c`.
pub open spec fn is_name_part(c: char) -> bool {
    is_name_start(c) || is_digit(c)
}

/// The test for the characters of a name.
pub open spec fn name_part() -> spec_fn(char) -> bool {
    |c: char| is_name_part(c)
}

/// The test for digits.
pub open spec fn digit() -> spec_fn(char) -> bool {
    |c: char| is_digit(c)
}

/// The test for every character but the line feed.
pub open spec fn in_line() -> spec_fn(char) -> bool {
    |c: char| c != '\n'
}

/// The end of the longest run of characters that meet `test`, from `i` on.
pub open spec fn run_end(s: Seq<char>, i: int, test: spec_fn(char) -> bool) -> int
    decreases s.len() - i,
{
    if 0 <= i < s.len() && test(s[i]) {
        run_end(s, i + 1, test)
    } else {
        i
    }
}

/// A run ends where the first character stands that fails the test.
pub proof fn lemma_run_end(s: Seq<char>, i: int, test: spec_fn(char) -> bool, k: int)
    requires
        0 <= i <= k <= s.len(),
        forall|j: int| i <= j < k ==> test(#[trigger] s[j]),
        k < s.len() ==> !test(s[k]),
    ensures
        run_end(s, i, test) == k,
    decreases k - i,
{
    if i < k {
        lemma_run_end(s, i + 1, test, k);
    }
}

/// A run goes on to its end, which lies in the text.
pub proof fn lemma_run_end_bounds(s: Seq<char>, i: int, test: spec_fn(char) -> bool)
    requires
        0 <= i <= s.len(),
    ensures
        i <= run_end(s, i, test) <= s.len(),
    decreases s.len() - i,
{
    if i < s.len() && test(s[i]) {
        lemma_run_end_bounds(s, i + 1, test);
    }
}

/// The token of a word: a keyword, a Boolean literal, or a name.
pub open spec fn word_lexeme(w: Seq<char>, pos: Position) -> Lexeme {
    if w == seq!['i', 'f'] {
        Lexeme::If
    } else if w == seq!['t', 'h', 'e', 'n'] {
        Lexeme::Then
    } else if w == seq!['e', 'l', 's', 'e'] {
        Lexeme::Else
    } else if w == seq!['w', 'h', 'i', 'l', 'e'] {
        Lexeme::While(pos)
    } else if w == seq!['d', 'o'] {
        Lexeme::Do
    } else if w == seq!['s', 'k', 'i', 'p'] {
        Lexeme::Skip
    } else if w == seq!['t', 'r', 'u', 'e'] {
        Lexeme::Boolean(true)
    } else if w == seq!['f', 'a', 'l', 's', 'e'] {
        Lexeme::Boolean(false)
    } else {
        Lexeme::Identifier(w)
    }
}

/// The token of a character that is a token by itself.
pub open spec fn symbol_lexeme(c: char) -> Option<Lexeme> {
    if c == '{' {
        Some(Lexeme::LCurlyBracket)
    } else if c == '}' {
        Some(Lexeme::RCurlyBracket)
    } else if c == '(' {
        Some(Lexeme::LParen)
    } else if c == ')' {
        Some(Lexeme::RParen)
    } else if c == ';' {
        Some(Lexeme::Semicolon)
    } else if c == '+' {
        Some(Lexeme::OperatorAdd)
    } else if c == '-' {
        Some(Lexeme::OperatorSub)
    } else if c == '*' {
        Some(Lexeme::OperatorMul)
    } else if c == '/' {
        Some(Lexeme::OperatorDiv)
    } else if c == '=' {
        Some(Lexeme::Equal)
    } else if c == '<' {
        Some(Lexeme::StrictlyLess)
    } else if c == '!' {
        Some(Lexeme::Not)
    } else if c == '&' {
        Some(Lexeme::And)
    } else {
        None
    }
}

/// `first` before the tokens of `rest`, or the error of `rest`.
pub open spec fn after(first: Seq<Lexeme>, rest: Result<Seq<Lexeme>, LexicalError>) -> Result<
    Seq<Lexeme>,
    LexicalError,
> {
    match rest {
        Ok(tokens) => Ok(first + tokens),
        Err(e) => Err(e),
    }
}

/// The word `assume`.
pub open spec fn assume_word() -> Seq<char> {
    seq!['a', 's', 's', 'u', 'm', 'e']
}

/// The tokens of the text from `i` on, where `i` stands in the line `line`
/// that begins at `line_start`.
///
/// Blanks, tabs and form feeds are passed over. A line feed begins a new
/// line. `#` begins a comment that runs to the end of the line, and so does
/// the word `assume`. A word is a keyword, a Boolean literal or a name;
/// `while` takes its line and its column with it. A run of digits is an
/// integer, which must fit 64 bits. `:=` and the single characters
/// `{ } ( ) ; + - * / = < ! &` are the other tokens. Any other character is
/// an error.
pub open spec fn lexed(s: Seq<char>, i: int, line: nat, line_start: int) -> Result<
    Seq<Lexeme>,
    LexicalError,
>
    decreases s.len() - i,
{
    if i < 0 || i >= s.len() {
        Ok(Seq::empty())
    } else {
        let c = s[i];
        if c == ' ' || c == '\t' || c == '\x0c' {
            lexed(s, i + 1, line, line_start)
        } else if c == '\n' {
            lexed(s, i + 1, line + 1, i + 1)
        } else if c == '#' {
            proof {
                lemma_run_end_bounds(s, i + 1, in_line());
            }
            lexed(s, run_end(s, i + 1, in_line()), line, line_start)
        } else if is_name_start(c) {
            let end = run_end(s, i + 1, name_part());
            let word = s.subrange(i, end);
            proof {
                lemma_run_end_bounds(s, i + 1, name_part());
                lemma_run_end_bounds(s, end, in_line());
            }
            if word == assume_word() {
                lexed(s, run_end(s, end, in_line()), line, line_start)
            } else {
                let pos = Position { line: line as usize, clm: (i - line_start) as usize };
                after(seq![word_lexeme(word, pos)], lexed(s, end, line, line_start))
            }
        } else if is_digit(c) {
            let end = run_end(s, i + 1, digit());
            proof {
                lemma_run_end_bounds(s, i + 1, digit());
            }
            match parsed_i64(s.subrange(i, end)) {
                Some(x) => after(seq![Lexeme::Integer(x)], lexed(s, end, line, line_start)),
                None => Err(LexicalError::InvalidInteger),
            }
        } else if c == ':' {
            if i + 1 < s.len() && s[i + 1] == '=' {
                after(seq![Lexeme::Assign], lexed(s, i + 2, line, line_start))
            } else {
                Err(LexicalError::InvalidToken)
            }
        } else {
            match symbol_lexeme(c) {
                Some(t) => after(seq![t], lexed(s, i + 1, line, line_start)),
                None => Err(LexicalError::InvalidToken),
            }
        }
    }
}

/// Whether `v[from..to]` is the word `word`.
fn range_is(v: &Vec<char>, from: usize, to: usize, word: &str) -> (r: bool)
    requires
        from <= to <= v.len(),
    ensures
        r == (v@.subrange(from as int, to as int) == word@),
{
    let n = word.unicode_len();
    if to - from != n {
        return false;
    }
    let mut k: usize = 0;
    while k < n
        invariant
            k <= n,
            n == word@.len(),
            to - from == n,
            to <= v.len(),
            forall|j: int| 0 <= j < k ==> v@[from + j] == #[trigger] word@[j],
        decreases n - k,
    {
        if v[from + k] != word.get_char(k) {
            assert(v@.subrange(from as int, to as int)[k as int] == v@[from + k]);
            return false;
        }
        k += 1;
    }
    assert(v@.subrange(from as int, to as int) =~= word@);
    true
}

/// The end of the run of characters of a name from `i` on.
fn name_end(v: &Vec<char>, i: usize) -> (r: usize)
    requires
        i <= v.len(),
    ensures
        i <= r <= v.len(),
        r == run_end(v@, i as int, name_part()),
{
    let mut k = i;
    while k < v.len() && (v[k] == '_' || ('a' <= v[k] && v[k] <= 'z') || ('A' <= v[k] && v[k] <= 'Z')
        || ('0' <= v[k] && v[k] <= '9'))
        invariant
            i <= k <= v.len(),
            forall|j: int| i <= j < k ==> is_name_part(#[trigger] v@[j]),
        decreases v.len() - k,
    {
        k += 1;
    }
    proof {
        let test = name_part();
        assert forall|j: int| i <= j < k implies test(#[trigger] v@[j]) by {
            assert(is_name_part(v@[j]));
        }
        lemma_run_end(v@, i as int, test, k as int);
    }
    k
}

/// The end of the run of digits from `i` on.
fn digits_end(v: &Vec<char>, i: usize) -> (r: usize)
    requires
        i <= v.len(),
    ensures
        i <= r <= v.len(),
        r == run_end(v@, i as int, digit()),
{
    let mut k = i;
    while k < v.len() && '0' <= v[k] && v[k] <= '9'
        invariant
            i <= k <= v.len(),
            forall|j: int| i <= j < k ==> is_digit(#[trigger] v@[j]),
        decreases v.len() - k,
    {
        k += 1;
    }
    proof {
        let test = digit();
        assert forall|j: int| i <= j < k implies test(#[trigger] v@[j]) by {
            assert(is_digit(v@[j]));
        }
        lemma_run_end(v@, i as int, test, k as int);
    }
    k
}

/// The end of the line in which `i` stands.
fn line_end(v: &Vec<char>, i: usize) -> (r: usize)
    requires
        i <= v.len(),
    ensures
        i <= r <= v.len(),
        r == run_end(v@, i as int, in_line()),
{
    let mut k = i;
    while k < v.len() && v[k] != '\n'
        invariant
            i <= k <= v.len(),
            forall|j: int| i <= j < k ==> #[trigger] v@[j] != '\n',
        decreases v.len() - k,
    {
        k += 1;
    }
    proof {
        let test = in_line();
        assert forall|j: int| i <= j < k implies test(#[trigger] v@[j]) by {
            assert(v@[j] != '\n');
        }
        lemma_run_end(v@, i as int, test, k as int);
    }
    k
}

/// The token of the word `v[from..to]`, which stands at `pos`.
fn word_token(source: &str, v: &Vec<char>, from: usize, to: usize, pos: Position) -> (r: Token)
    requires
        v@ == source@,
        from <= to <= v.len(),
    ensures
        r@ == word_lexeme(v@.subrange(from as int, to as int), pos),
{
    proof {
        reveal_strlit("if");
        reveal_strlit("then");
        reveal_strlit("else");
        reveal_strlit("while");
        reveal_strlit("do");
        reveal_strlit("skip");
        reveal_strlit("true");
        reveal_strlit("false");
        assert("if"@ =~= seq!['i', 'f']);
        assert("then"@ =~= seq!['t', 'h', 'e', 'n']);
        assert("else"@ =~= seq!['e', 'l', 's', 'e']);
        assert("while"@ =~= seq!['w', 'h', 'i', 'l', 'e']);
        assert("do"@ =~= seq!['d', 'o']);
        assert("skip"@ =~= seq!['s', 'k', 'i', 'p']);
        assert("true"@ =~= seq!['t', 'r', 'u', 'e']);
        assert("false"@ =~= seq!['f', 'a', 'l', 's', 'e']);
    }
    if range_is(v, from, to, "if") {
        Token::If
    } else if range_is(v, from, to, "then") {
        Token::Then
    } else if range_is(v, from, to, "else") {
        Token::Else
    } else if range_is(v, from, to, "while") {
        Token::While(pos)
    } else if range_is(v, from, to, "do") {
        Token::Do
    } else if range_is(v, from, to, "skip") {
        Token::Skip
    } else if range_is(v, from, to, "true") {
        Token::Boolean(true)
    } else if range_is(v, from, to, "false") {
        Token::Boolean(false)
    } else {
        Token::Identifier(text_of(source, v, from, to))
    }
}

/// The token of a character that is a token by itself.
fn symbol_token(c: char) -> (r: Option<Token>)
    ensures
        match r {
            Some(t) => symbol_lexeme(c) == Some(t@),
            None => symbol_lexeme(c) is None,
        },
{
    if c == '{' {
        Some(Token::LCurlyBracket)
    } else if c == '}' {
        Some(Token::RCurlyBracket)
    } else if c == '(' {
        Some(Token::LParen)
    } else if c == ')' {
        Some(Token::RParen)
    } else if c == ';' {
        Some(Token::Semicolon)
    } else if c == '+' {
        Some(Token::OperatorAdd)
    } else if c == '-' {
        Some(Token::OperatorSub)
    } else if c == '*' {
        Some(Token::OperatorMul)
    } else if c == '/' {
        Some(Token::OperatorDiv)
    } else if c == '=' {
        Some(Token::Equal)
    } else if c == '<' {
        Some(Token::StrictlyLess)
    } else if c == '!' {
        Some(Token::Not)
    } else if c == '&' {
        Some(Token::And)
    } else {
        None
    }
}

/// The tokens of a source text.
pub open spec fn tokens_of(source: Seq<char>) -> Result<Seq<Lexeme>, LexicalError> {
    lexed(source, 0, 0, 0)
}

/// Reads the tokens of a source text.
pub fn tokenize(source: &str) -> (r: Result<Vec<Token>, LexicalError>)
    ensures
        match r {
            Ok(tokens) => tokens_of(source@) == Ok::<Seq<Lexeme>, LexicalError>(lexemes(tokens@)),
            Err(e) => tokens_of(source@) == Err::<Seq<Lexeme>, LexicalError>(e),
        },
{
    let v = chars_of(source);
    let n = v.len();
    let mut tokens: Vec<Token> = Vec::new();
    let mut i: usize = 0;
    let mut line: usize = 0;
    let mut line_start: usize = 0;
    let ghost s = v@;
    assert(lexemes(tokens@) =~= Seq::<Lexeme>::empty());
    assert(after(Seq::empty(), lexed(s, 0, 0, 0)) == lexed(s, 0, 0, 0)) by {
        match lexed(s, 0, 0, 0) {
            Ok(ts) => {
                assert(Seq::<Lexeme>::empty() + ts =~= ts);
            },
            Err(_) => {},
        }
    }
    while i < n
        invariant
            i <= n == v.len(),
            s == v@,
            v@ == source@,
            line <= i,
            line_start <= i,
            tokens_of(s) == after(lexemes(tokens@), lexed(s, i as int, line as nat, line_start as int)),
        decreases n - i,
    {
        let c = v[i];
        let ghost before = lexemes(tokens@);
        let ghost here = lexed(s, i as int, line as nat, line_start as int);
        if c == ' ' || c == '\t' || c == '\x0c' {
            i += 1;
        } else if c == '\n' {
            i += 1;
            line += 1;
            line_start = i;
        } else if c == '#' {
            i = line_end(&v, i + 1);
        } else if c == '_' || ('a' <= c && c <= 'z') || ('A' <= c && c <= 'Z') {
            let end = name_end(&v, i + 1);
            proof {
                reveal_strlit("assume");
                assert("assume"@ =~= assume_word());
            }
            if range_is(&v, i, end, "assume") {
                i = line_end(&v, end);
            } else {
                let pos = Position { line, clm: i - line_start };
                let token = word_token(source, &v, i, end, pos);
                tokens.push(token);
                proof {
                    let rest = lexed(s, end as int, line as nat, line_start as int);
                    assert(lexemes(tokens@) =~= before + seq![token@]);
                    lemma_after_after(before, seq![token@], rest);
                }
                i = end;
            }
        } else if '0' <= c && c <= '9' {
            let end = digits_end(&v, i + 1);
            match parse_i64(&v, i, end) {
                Some(x) => {
                    tokens.push(Token::Integer(x));
                    proof {
                        let rest = lexed(s, end as int, line as nat, line_start as int);
                        assert(lexemes(tokens@) =~= before + seq![Lexeme::Integer(x)]);
                        lemma_after_after(before, seq![Lexeme::Integer(x)], rest);
                    }
                    i = end;
                },
                None => {
                    return Err(LexicalError::InvalidInteger);
                },
            }
        } else if c == ':' {
            if i + 1 < n && v[i + 1] == '=' {
                tokens.push(Token::Assign);
                proof {
                    let rest = lexed(s, i + 2, line as nat, line_start as int);
                    assert(lexemes(tokens@) =~= before + seq![Lexeme::Assign]);
                    lemma_after_after(before, seq![Lexeme::Assign], rest);
                }
                i += 2;
            } else {
                return Err(LexicalError::InvalidToken);
            }
        } else {
            match symbol_token(c) {
                Some(token) => {
                    tokens.push(token);
                    proof {
                        let rest = lexed(s, i + 1, line as nat, line_start as int);
                        assert(lexemes(tokens@) =~= before + seq![token@]);
                        lemma_after_after(before, seq![token@], rest);
                    }
                    i += 1;
                },
                None => {
                    return Err(LexicalError::InvalidToken);
                },
            }
        }
    }
    assert(lexemes(tokens@) + Seq::<Lexeme>::empty() =~= lexemes(tokens@));
    Ok(tokens)
}

/// Tokens before tokens before a rest are their concatenation before it.
pub proof fn lemma_after_after(
    a: Seq<Lexeme>,
    b: Seq<Lexeme>,
    rest: Result<Seq<Lexeme>, LexicalError>,
)
    ensures
        after(a, after(b, rest)) == after(a + b, rest),
{
    match rest {
        Ok(ts) => {
            assert(a + (b + ts) =~= (a + b) + ts);
        },
        Err(_) => {},
    }
}

} // verus!
