//! The template tokenizer.
//!
//! A template is scanned left to right for the two bracket patterns
//! `{{ ... }}` (variable) and `{% ... %}` (statement), non-greedily and
//! never across a line break; the text between matches is kept verbatim.
//! A statement is dispatched on its trimmed body; a malformed statement
//! body is dropped without error, by design.
use vstd::prelude::*;

use crate::text::{
    check_at, chars_of_str, split_list, split_sub, string_of_chars, sub_chars, trim_chars,
    trim_spec, vec_chars_eq,
};

verus! {

/// One template token.
pub enum Token {
    /// Literal text, kept verbatim.
    Text(String),
    /// `{{ name }}`: substitute a field of the first row.
    Variable(String),
    /// `{% for item in list %}`: open a loop body.
    ForStart(String, String),
    /// `{% endfor %}`: close and expand a loop body.
    ForEnd,
    /// `{% if field %}`: open a conditional body.
    IfStart(String),
    /// `{% else %}`: switch to the alternative branch.
    Else,
    /// `{% endif %}`: close a conditional body.
    IfEnd,
    /// `{% include path %}`: splice in another template file.
    Embed(String),
}

/// The mathematical model of a token.
pub ghost enum TokenV {
    Text(Seq<char>),
    Variable(Seq<char>),
    ForStart(Seq<char>, Seq<char>),
    ForEnd,
    IfStart(Seq<char>),
    Else,
    IfEnd,
    Embed(Seq<char>),
}

impl View for Token {
    type V = TokenV;

    open spec fn view(&self) -> TokenV {
        match self {
            Token::Text(s) => TokenV::Text(s@),
            Token::Variable(s) => TokenV::Variable(s@),
            Token::ForStart(a, b) => TokenV::ForStart(a@, b@),
            Token::ForEnd => TokenV::ForEnd,
            Token::IfStart(s) => TokenV::IfStart(s@),
            Token::Else => TokenV::Else,
            Token::IfEnd => TokenV::IfEnd,
            Token::Embed(s) => TokenV::Embed(s@),
        }
    }
}

impl DeepView for Token {
    type V = TokenV;

    open spec fn deep_view(&self) -> TokenV {
        self.view()
    }
}

/// The first index at or after `k` where the two-character closer
/// `c0 c1` occurs, provided no line break comes first: the directive
/// patterns do not span lines.
pub open spec fn close2(s: Seq<char>, k: int, c0: char, c1: char) -> Option<int>
    decreases s.len() - k,
        when 0 <= k
{
    if k + 2 > s.len() {
        None
    } else if s[k] == c0 && s[k + 1] == c1 {
        Some(k)
    } else if s[k] == '\n' {
        None
    } else {
        close2(s, k + 1, c0, c1)
    }
}

pub proof fn lemma_close2(s: Seq<char>, k: int, c0: char, c1: char)
    requires
        0 <= k,
    ensures
        match close2(s, k, c0, c1) {
            Some(m) => k <= m && m + 2 <= s.len() && s[m] == c0 && s[m + 1] == c1,
            None => true,
        },
    decreases s.len() - k,
{
    if k + 2 > s.len() {
    } else if s[k] == c0 && s[k + 1] == c1 {
    } else if s[k] == '\n' {
    } else {
        lemma_close2(s, k + 1, c0, c1);
    }
}

/// A directive opens at `j`: an opening bracket pair with its closer on
/// the same line.
pub open spec fn open_at(s: Seq<char>, j: int) -> bool {
    &&& 0 <= j
    &&& j + 2 <= s.len()
    &&& s[j] == '{'
    &&& ((s[j + 1] == '{' && close2(s, j + 2, '}', '}') is Some) || (s[j + 1] == '%' && close2(
        s,
        j + 2,
        '%',
        '}',
    ) is Some))
}

/// The first index at or after `i` where a directive opens.
pub open spec fn find_open(s: Seq<char>, i: int) -> Option<int>
    decreases s.len() - i,
        when 0 <= i
{
    if i + 2 > s.len() {
        None
    } else if open_at(s, i) {
        Some(i)
    } else {
        find_open(s, i + 1)
    }
}

pub proof fn lemma_find_open(s: Seq<char>, i: int)
    requires
        0 <= i,
    ensures
        match find_open(s, i) {
            Some(j) => i <= j && open_at(s, j),
            None => true,
        },
    decreases s.len() - i,
{
    if i + 2 > s.len() {
    } else if open_at(s, i) {
    } else {
        lemma_find_open(s, i + 1);
    }
}

/// The token a statement body produces, if any: the trimmed body is
/// dispatched on its keyword, and a body that fits no form — including a
/// `for` head without exactly one ` in ` separator — is dropped.
pub open spec fn stmt_token(inner: Seq<char>) -> Seq<TokenV> {
    let c = trim_spec(inner);
    if c.len() >= 4 && c.subrange(0, 4) == "for "@ {
        let parts = split_sub(c.subrange(4, c.len() as int), " in "@);
        if parts.len() == 2 {
            seq![TokenV::ForStart(trim_spec(parts[0]), trim_spec(parts[1]))]
        } else {
            Seq::empty()
        }
    } else if c == "endfor"@ {
        seq![TokenV::ForEnd]
    } else if c.len() >= 3 && c.subrange(0, 3) == "if "@ {
        seq![TokenV::IfStart(trim_spec(c.subrange(3, c.len() as int)))]
    } else if c == "else"@ {
        seq![TokenV::Else]
    } else if c == "endif"@ {
        seq![TokenV::IfEnd]
    } else if c.len() >= 8 && c.subrange(0, 8) == "include "@ {
        seq![TokenV::Embed(trim_spec(c.subrange(8, c.len() as int)))]
    } else {
        Seq::empty()
    }
}

/// The tokens of the template text from index `i` on: literal text up to
/// the next directive, the directive's token, then the rest.
pub open spec fn tokenize_from(s: Seq<char>, i: int) -> Seq<TokenV>
    decreases s.len() - i,
        when 0 <= i
        via tokenize_from_dec
{
    match find_open(s, i) {
        None => if i < s.len() {
            seq![TokenV::Text(s.subrange(i, s.len() as int))]
        } else {
            Seq::empty()
        },
        Some(j) => {
            let text: Seq<TokenV> = if j > i {
                seq![TokenV::Text(s.subrange(i, j))]
            } else {
                Seq::empty()
            };
            if s[j + 1] == '{' && close2(s, j + 2, '}', '}') is Some {
                let m = close2(s, j + 2, '}', '}')->0;
                text + seq![TokenV::Variable(trim_spec(s.subrange(j + 2, m)))] + tokenize_from(
                    s,
                    m + 2,
                )
            } else {
                let m = close2(s, j + 2, '%', '}')->0;
                text + stmt_token(s.subrange(j + 2, m)) + tokenize_from(s, m + 2)
            }
        },
    }
}

#[via_fn]
proof fn tokenize_from_dec(s: Seq<char>, i: int) {
    lemma_find_open(s, i);
    match find_open(s, i) {
        None => {},
        Some(j) => {
            lemma_close2(s, j + 2, '}', '}');
            lemma_close2(s, j + 2, '%', '}');
        },
    }
}

/// The token sequence of a whole template.
pub open spec fn tokenize_spec(s: Seq<char>) -> Seq<TokenV> {
    tokenize_from(s, 0)
}

/// Whether the two-character closer occurs at or after `k` on this line.
fn close2_at(s: &Vec<char>, k: usize, c0: char, c1: char) -> (r: Option<usize>)
    requires
        k <= s@.len(),
    ensures
        match r {
            Some(m) => close2(s@, k as int, c0, c1) == Some(m as int) && k <= m && m + 2
                <= s@.len(),
            None => close2(s@, k as int, c0, c1) is None,
        },
{
    let mut m: usize = k;
    loop
        invariant
            k <= m <= s@.len(),
            close2(s@, k as int, c0, c1) == close2(s@, m as int, c0, c1),
        decreases s@.len() - m,
    {
        if s.len() - m < 2 {
            return None;
        }
        if s[m] == c0 && s[m + 1] == c1 {
            return Some(m);
        }
        if s[m] == '\n' {
            return None;
        }
        m = m + 1;
    }
}

/// Whether a directive opens at `j`.
fn open_at_exec(s: &Vec<char>, j: usize) -> (r: bool)
    ensures
        r == open_at(s@, j as int),
{
    if j > s.len() || s.len() - j < 2 {
        return false;
    }
    if s[j] != '{' {
        return false;
    }
    if s[j + 1] == '{' {
        close2_at(s, j + 2, '}', '}').is_some()
    } else if s[j + 1] == '%' {
        close2_at(s, j + 2, '%', '}').is_some()
    } else {
        false
    }
}

/// The first index at or after `i` where a directive opens.
fn find_open_exec(s: &Vec<char>, i: usize) -> (r: Option<usize>)
    requires
        i <= s@.len(),
    ensures
        match r {
            Some(j) => find_open(s@, i as int) == Some(j as int) && i <= j && open_at(s@, j as int)
                && j + 2 <= s@.len(),
            None => find_open(s@, i as int) is None,
        },
{
    let mut j: usize = i;
    loop
        invariant
            i <= j <= s@.len(),
            find_open(s@, i as int) == find_open(s@, j as int),
        decreases s@.len() - j,
    {
        if s.len() - j < 2 {
            return None;
        }
        if open_at_exec(s, j) {
            return Some(j);
        }
        j = j + 1;
    }
}

/// The token of one statement body, if it has one.
fn stmt_token_exec(inner: &Vec<char>) -> (r: Option<Token>)
    ensures
        match r {
            Some(t) => stmt_token(inner@) == seq![t@],
            None => stmt_token(inner@) == Seq::<TokenV>::empty(),
        },
{
    proof {
        reveal_strlit("for ");
        reveal_strlit(" in ");
        reveal_strlit("if ");
        reveal_strlit("include ");
    }
    let c = trim_chars(inner);
    let kw_for = chars_of_str("for ");
    let kw_in = chars_of_str(" in ");
    if check_at(&c, &kw_for, 0) {
        let rest = sub_chars(&c, 4, c.len());
        let parts = split_list(&rest, &kw_in);
        if parts.len() == 2 {
            let item = trim_chars(&parts[0]);
            let list = trim_chars(&parts[1]);
            proof {
                assert(parts.deep_view()[0] == parts@[0]@);
                assert(parts.deep_view()[1] == parts@[1]@);
            }
            Some(Token::ForStart(string_of_chars(&item), string_of_chars(&list)))
        } else {
            None
        }
    } else if vec_chars_eq(&c, &chars_of_str("endfor")) {
        Some(Token::ForEnd)
    } else if check_at(&c, &chars_of_str("if "), 0) {
        let cond = trim_chars(&sub_chars(&c, 3, c.len()));
        Some(Token::IfStart(string_of_chars(&cond)))
    } else if vec_chars_eq(&c, &chars_of_str("else")) {
        Some(Token::Else)
    } else if vec_chars_eq(&c, &chars_of_str("endif")) {
        Some(Token::IfEnd)
    } else if check_at(&c, &chars_of_str("include "), 0) {
        let path = trim_chars(&sub_chars(&c, 8, c.len()));
        Some(Token::Embed(string_of_chars(&path)))
    } else {
        None
    }
}

/// Scan a template into its token sequence.
#[verifier::rlimit(30)]
pub fn tokenize(template: &str) -> (r: Vec<Token>)
    ensures
        r.deep_view() == tokenize_spec(template@),
{
    let s = chars_of_str(template);
    let mut tokens: Vec<Token> = Vec::new();
    let mut pos: usize = 0;
    loop
        invariant
            pos <= s@.len(),
            s@ == template@,
            tokenize_spec(template@) == tokens.deep_view() + tokenize_from(s@, pos as int),
        decreases s@.len() - pos,
    {
        let ghost toks0 = tokens.deep_view();
        match find_open_exec(&s, pos) {
            None => {
                if pos < s.len() {
                    let text = sub_chars(&s, pos, s.len());
                    tokens.push(Token::Text(string_of_chars(&text)));
                    proof {
                        assert(tokens.deep_view() =~= toks0.push(
                            TokenV::Text(s@.subrange(pos as int, s@.len() as int)),
                        ));
                        assert(tokens.deep_view() =~= tokenize_spec(template@));
                    }
                } else {
                    proof {
                        assert(tokens.deep_view() =~= tokenize_spec(template@));
                    }
                }
                return tokens;
            },
            Some(j) => {
                proof {
                    assert(j + 2 <= s@.len());
                }
                if j > pos {
                    let text = sub_chars(&s, pos, j);
                    tokens.push(Token::Text(string_of_chars(&text)));
                    proof {
                        assert(tokens.deep_view() =~= toks0.push(
                            TokenV::Text(s@.subrange(pos as int, j as int)),
                        ));
                    }
                }
                let ghost toks1 = tokens.deep_view();
                if s[j + 1] == '{' {
                    match close2_at(&s, j + 2, '}', '}') {
                        Some(m) => {
                            proof {
                                assert(m + 2 <= s@.len());
                            }
                            let inner = trim_chars(&sub_chars(&s, j + 2, m));
                            tokens.push(Token::Variable(string_of_chars(&inner)));
                            proof {
                                assert(tokens.deep_view() =~= toks1.push(
                                    TokenV::Variable(trim_spec(s@.subrange(j + 2, m as int))),
                                ));
                                assert(tokenize_spec(template@) == tokens.deep_view()
                                    + tokenize_from(s@, m + 2));
                            }
                            let n = s.len();
                            proof {
                                assert(m + 2 <= n);
                            }
                            pos = m + 2;
                        },
                        None => {
                            proof {
                                assert(false);
                            }
                        },
                    }
                } else {
                    match close2_at(&s, j + 2, '%', '}') {
                        Some(m) => {
                            proof {
                                assert(m + 2 <= s@.len());
                            }
                            let inner = sub_chars(&s, j + 2, m);
                            match stmt_token_exec(&inner) {
                                Some(t) => {
                                    let ghost tv = t@;
                                    tokens.push(t);
                                    proof {
                                        assert(tokens.deep_view() =~= toks1.push(tv));
                                        assert(tokens.deep_view() =~= toks1 + seq![tv]);
                                        assert(tokenize_spec(template@) == tokens.deep_view()
                                            + tokenize_from(s@, m + 2));
                                    }
                                },
                                None => {
                                    proof {
                                        assert(tokens.deep_view() =~= toks1 + stmt_token(
                                            s@.subrange(j + 2, m as int),
                                        ));
                                        assert(tokenize_spec(template@) == tokens.deep_view()
                                            + tokenize_from(s@, m + 2));
                                    }
                                },
                            }
                            let n = s.len();
                            proof {
                                assert(m + 2 <= n);
                            }
                            pos = m + 2;
                        },
                        None => {
                            proof {
                                assert(false);
                            }
                        },
                    }
                }
            },
        }
    }
}

} // verus!
