//! How tokens are spelled, and the proof that the tokenizer does not care
//! how tokens are spaced: the spellings of the tokens of a text, joined by
//! single spaces, are split into the same tokens again.
use vstd::prelude::*;
use vstd::string::StringExecFns;
use crate::token::{Ch, Kind, LexError, Token, TokenView};
use crate::token::{lemma_find_single, lemma_find_word, plain_token, token_views};
use crate::tokenizer::{Run, class_of, decimal_value, in_run, lemma_run_end, lex, lex_from, opens_pair};
use crate::tokenizer::{run_end, scan_at, scan_from, word_kind};

verus! {

/// The character that writes the digit `d`.
pub open spec fn digit_char(d: int) -> char {
    ('0' as int + d) as char
}

/// The decimal digits that write `n`, without leading zeros.
pub open spec fn digits_of(n: nat) -> Seq<char>
    decreases n,
{
    if n < 10 {
        seq![digit_char(n as int)]
    } else {
        digits_of(n / 10).push(digit_char((n % 10) as int))
    }
}

/// The spelling of a punctuation mark or operator; empty for a kind that
/// has none of its own.
pub open spec fn spelling_of(kind: Kind) -> Seq<char> {
    match kind {
        Kind::Lparen => seq!['('],
        Kind::Rparen => seq![')'],
        Kind::Lbrace => seq!['{'],
        Kind::Rbrace => seq!['}'],
        Kind::Plus => seq!['+'],
        Kind::Minus => seq!['-'],
        Kind::Multi => seq!['*'],
        Kind::Divi => seq!['/'],
        Kind::Equal => seq!['=', '='],
        Kind::NotEq => seq!['!', '='],
        Kind::Less => seq!['<'],
        Kind::LessEq => seq!['<', '='],
        Kind::Greater => seq!['>'],
        Kind::GreaterEq => seq!['>', '='],
        Kind::Assign => seq!['='],
        Kind::Addasgn => seq!['+', '='],
        Kind::Mnuasgn => seq!['-', '='],
        Kind::Multiasgn => seq!['*', '='],
        Kind::Divasgn => seq!['/', '='],
        Kind::Semicolon => seq![';'],
        _ => Seq::empty(),
    }
}

/// Whether tokens of this kind are words: identifiers and keywords.
pub open spec fn is_word_kind(k: Kind) -> bool {
    k == Kind::Ident || k == Kind::If || k == Kind::Else || k == Kind::Print || k == Kind::Nyaan
}

/// Whether tokens of this kind are operators of two characters that the
/// tokenizer makes.
pub open spec fn is_pair_kind(k: Kind) -> bool {
    k == Kind::Equal || k == Kind::NotEq || k == Kind::Addasgn || k == Kind::LessEq || k
        == Kind::GreaterEq
}

/// Whether tokens of this kind are punctuation marks or operators of one
/// character.
pub open spec fn is_single_kind(k: Kind) -> bool {
    k == Kind::Lparen || k == Kind::Rparen || k == Kind::Lbrace || k == Kind::Rbrace || k
        == Kind::Plus || k == Kind::Minus || k == Kind::Multi || k == Kind::Divi || k == Kind::Less
        || k == Kind::Greater || k == Kind::Assign || k == Kind::Semicolon
}

/// How a token is spelled in a source text: a word by its text, an integer
/// by its decimal digits, a character or string literal between its quotes,
/// a mark or operator by its characters. The end of the input is spelled by
/// nothing. (The tokenizer makes no negative integer; one is spelled with a
/// minus sign.)
pub open spec fn lexeme(t: TokenView) -> Seq<char> {
    if is_word_kind(t.kind) {
        t.text
    } else if t.kind == Kind::Int {
        if t.val < 0 {
            seq!['-'] + digits_of((-t.val) as nat)
        } else {
            digits_of(t.val as nat)
        }
    } else if t.kind == Kind::Char {
        seq!['\'', t.chr, '\'']
    } else if t.kind == Kind::Str {
        seq!['"'] + t.text + seq!['"']
    } else {
        spelling_of(t.kind)
    }
}

/// The spellings of the tokens, in order, with one space between each two.
pub open spec fn joined(ts: Seq<TokenView>) -> Seq<char>
    decreases ts.len(),
{
    if ts.len() == 0 {
        Seq::empty()
    } else if ts.len() == 1 {
        lexeme(ts[0])
    } else {
        lexeme(ts[0]) + seq![' '] + joined(ts.skip(1))
    }
}

/// Whether `t` is a token as the tokenizer makes them from recognized
/// characters: every kind but `Others`, with the payload that goes with
/// the kind and nothing else.
pub open spec fn scannable(t: TokenView) -> bool {
    if is_word_kind(t.kind) {
        &&& t.text.len() > 0
        &&& class_of(t.text[0]) == Ch::Letter
        &&& forall|i: int| 0 <= i < t.text.len() ==> in_run(Run::Word, #[trigger] t.text[i])
        &&& word_kind(t.text) == t.kind
        &&& t.chr == ' '
        &&& t.val == 0
    } else if t.kind == Kind::Int {
        t.text == Seq::<char>::empty() && t.chr == ' ' && t.val >= 0
    } else if t.kind == Kind::Char {
        t.text == Seq::<char>::empty() && t.val == 0
    } else if t.kind == Kind::Str {
        &&& forall|i: int| 0 <= i < t.text.len() ==> #[trigger] t.text[i] != '"'
        &&& t.chr == ' '
        &&& t.val == 0
    } else if is_pair_kind(t.kind) || is_single_kind(t.kind) || t.kind == Kind::Endlist {
        t == plain_token(t.kind)
    } else {
        false
    }
}

/// Whether `ts` is a sequence of tokens as the tokenizer makes them from a
/// text of recognized characters: scannable tokens, and the end of the
/// input last and nowhere else.
pub open spec fn proper(ts: Seq<TokenView>) -> bool {
    &&& ts.len() >= 1
    &&& ts.last() == plain_token(Kind::Endlist)
    &&& forall|k: int|
        0 <= k < ts.len() - 1 ==> scannable(#[trigger] ts[k]) && ts[k].kind != Kind::Endlist
}

/// The digits of a number are digits, at least one, and write the number.
pub proof fn lemma_digits(n: nat)
    ensures
        digits_of(n).len() >= 1,
        forall|i: int| 0 <= i < digits_of(n).len() ==> in_run(Run::Digits, #[trigger] digits_of(n)[i]),
        decimal_value(digits_of(n)) == n,
    decreases n,
{
    if n < 10 {
        let s = digits_of(n);
        assert(s.drop_last() =~= Seq::<char>::empty());
        assert(decimal_value(s.drop_last()) == 0);
        assert(s.last() == digit_char(n as int));
    } else {
        lemma_digits(n / 10);
        let s = digits_of(n);
        assert(s.drop_last() =~= digits_of(n / 10));
        assert(s.last() == digit_char((n % 10) as int));
    }
}

/// A run ends exactly where its characters end.
pub proof fn lemma_run_exact(s: Seq<char>, p: int, q: int, r: Run)
    requires
        0 <= p <= q <= s.len(),
        forall|k: int| p <= k < q ==> in_run(r, #[trigger] s[k]),
        q == s.len() || !in_run(r, s[q]),
    ensures
        run_end(s, p, r) == q,
    decreases q - p,
{
    if p < q {
        lemma_run_exact(s, p + 1, q, r);
    }
}

/// A token that is scanned at a character is scannable, unless it is of
/// kind `Others`; it is not the end of the input, and it ends behind its
/// start and within the text.
pub proof fn lemma_scan_at(s: Seq<char>, i: int)
    requires
        0 <= i < s.len(),
        scan_at(s, i) is Ok,
    ensures
        scan_at(s, i).unwrap().0.kind == Kind::Others || scannable(scan_at(s, i).unwrap().0),
        scan_at(s, i).unwrap().0.kind != Kind::Endlist,
        i < scan_at(s, i).unwrap().1 <= s.len(),
{
    let c = s[i];
    let k = class_of(c);
    let t = scan_at(s, i).unwrap().0;
    if k == Ch::Letter {
        let j = run_end(s, i, Run::Word);
        lemma_run_end(s, i + 1, Run::Word);
        lemma_run_end(s, i, Run::Word);
        let w = s.subrange(i, j);
        assert(w[0] == s[i]);
        lemma_find_word(w);
        assert forall|x: int| 0 <= x < w.len() implies in_run(Run::Word, #[trigger] w[x]) by {
            assert(w[x] == s[i + x]);
        }
    } else if k == Ch::Digit {
        lemma_run_end(s, i + 1, Run::Digits);
        lemma_run_end(s, i, Run::Digits);
    } else if k == Ch::SngQ {
    } else if k == Ch::DblQ {
        let j = run_end(s, i + 1, Run::Text);
        lemma_run_end(s, i + 1, Run::Text);
        let w = s.subrange(i + 1, j);
        assert forall|x: int| 0 <= x < w.len() implies #[trigger] w[x] != '"' by {
            assert(w[x] == s[i + 1 + x]);
        }
    } else if opens_pair(k) && i + 1 < s.len() && s[i + 1] == '=' {
    } else {
        lemma_find_single(c);
    }
}

/// A scannable token is scanned again from its spelling, where a space or
/// the end of the text follows it.
pub proof fn lemma_rescan(t: TokenView, s: Seq<char>, p: int)
    requires
        scannable(t),
        t.kind != Kind::Endlist,
        0 <= p,
        p + lexeme(t).len() <= s.len(),
        s.subrange(p, p + lexeme(t).len()) == lexeme(t),
        p + lexeme(t).len() == s.len() || s[p + lexeme(t).len()] == ' ',
    ensures
        lexeme(t).len() > 0,
        !in_run(Run::Blank, s[p]),
        scan_at(s, p) == Ok::<(TokenView, int), LexError>((t, p + lexeme(t).len())),
{
    let w = lexeme(t);
    let n = w.len() as int;
    assert forall|x: int| 0 <= x < n implies s[p + x] == #[trigger] w[x] by {
        assert(s.subrange(p, p + n)[x] == s[p + x]);
    }
    if is_word_kind(t.kind) {
        assert(s[p + 0] == w[0]);
        assert forall|k: int| p <= k < p + n implies in_run(Run::Word, #[trigger] s[k]) by {
            assert(s[p + (k - p)] == w[k - p]);
        }
        lemma_run_exact(s, p, p + n, Run::Word);
        assert(s.subrange(p, p + n) =~= t.text);
    } else if t.kind == Kind::Int {
        lemma_digits(t.val as nat);
        assert(s[p + 0] == w[0]);
        assert forall|k: int| p <= k < p + n implies in_run(Run::Digits, #[trigger] s[k]) by {
            assert(s[p + (k - p)] == w[k - p]);
        }
        lemma_run_exact(s, p, p + n, Run::Digits);
    } else if t.kind == Kind::Char {
        assert(s[p + 0] == w[0] && s[p + 1] == w[1] && s[p + 2] == w[2]);
    } else if t.kind == Kind::Str {
        let m = t.text.len() as int;
        assert(n == m + 2);
        assert(s[p + 0] == w[0]);
        assert(w[0] == '"');
        assert(s[p + (m + 1)] == w[m + 1]);
        assert(w[m + 1] == '"');
        assert forall|k: int| p + 1 <= k < p + 1 + m implies in_run(Run::Text, #[trigger] s[k]) by {
            assert(s[p + (k - p)] == w[k - p]);
            assert(w[k - p] == t.text[k - p - 1]);
        }
        lemma_run_exact(s, p + 1, p + 1 + m, Run::Text);
        assert forall|x: int| 0 <= x < m implies s.subrange(p + 1, p + 1 + m)[x] == t.text[x] by {
            assert(s[p + (x + 1)] == w[x + 1]);
        }
        assert(s.subrange(p + 1, p + 1 + m) =~= t.text);
    } else if is_pair_kind(t.kind) {
        assert(s[p + 0] == w[0] && s[p + 1] == w[1]);
    } else {
        assert(is_single_kind(t.kind));
        assert(s[p + 0] == w[0]);
        lemma_find_single(w[0]);
    }
}

/// The tokens of a text are a proper sequence, unless one of them is of
/// kind `Others`.
pub proof fn lemma_lexed_is_proper(s: Seq<char>, p: int)
    requires
        0 <= p,
        lex_from(s, p) is Ok,
        forall|k: int|
            0 <= k < lex_from(s, p).unwrap().len() ==> (#[trigger] lex_from(s, p).unwrap()[k]).kind
                != Kind::Others,
    ensures
        proper(lex_from(s, p).unwrap()),
    decreases s.len() - p,
{
    let ts = lex_from(s, p).unwrap();
    let i = run_end(s, p, Run::Blank);
    if p <= s.len() {
        lemma_run_end(s, p, Run::Blank);
    }
    let (t, q) = scan_from(s, p).unwrap();
    if i < s.len() {
        lemma_scan_at(s, i);
        let rest = lex_from(s, q).unwrap();
        assert(ts == seq![t] + rest);
        assert forall|k: int| 0 <= k < rest.len() implies (#[trigger] rest[k]).kind
            != Kind::Others by {
            assert(ts[k + 1] == rest[k]);
        }
        lemma_lexed_is_proper(s, q);
        assert(ts[0] == t);
        assert forall|k: int| 0 <= k < ts.len() - 1 implies scannable(#[trigger] ts[k]) && ts[k].kind
            != Kind::Endlist by {
            if k > 0 {
                assert(ts[k] == rest[k - 1]);
            }
        }
        assert(ts.last() == rest.last());
    }
}

/// A blank before a token changes nothing.
pub proof fn lemma_skip_blank(s: Seq<char>, q: int)
    requires
        0 <= q < s.len(),
        in_run(Run::Blank, s[q]),
    ensures
        lex_from(s, q) == lex_from(s, q + 1),
{
    let i = run_end(s, q + 1, Run::Blank);
    lemma_run_end(s, q + 1, Run::Blank);
    if i < s.len() && scan_at(s, i) is Ok {
        lemma_scan_at(s, i);
    }
}

/// The spellings of a proper sequence of tokens, joined by single spaces
/// and put behind any text, are split into the same tokens again from
/// there.
pub proof fn lemma_rejoin(ts: Seq<TokenView>, pre: Seq<char>)
    requires
        proper(ts),
    ensures
        lex_from(pre + joined(ts), pre.len() as int) == Ok::<Seq<TokenView>, LexError>(ts),
    decreases ts.len(),
{
    let s = pre + joined(ts);
    let p = pre.len() as int;
    if ts.len() == 1 {
        assert(joined(ts) =~= Seq::<char>::empty());
        assert(s =~= pre);
        assert(ts =~= seq![plain_token(Kind::Endlist)]);
    } else {
        let t = ts[0];
        let rest = ts.skip(1);
        let w = lexeme(t);
        let n = w.len() as int;
        assert(joined(ts) == w + seq![' '] + joined(rest));
        assert(s.subrange(p, p + n) =~= w);
        assert(s[p + n] == ' ');
        lemma_rescan(t, s, p);
        assert(run_end(s, p, Run::Blank) == p);
        assert(rest.last() == ts.last());
        assert forall|k: int| 0 <= k < rest.len() - 1 implies scannable(#[trigger] rest[k])
            && rest[k].kind != Kind::Endlist by {
            assert(rest[k] == ts[k + 1]);
        }
        lemma_skip_blank(s, p + n);
        let next = pre + w + seq![' '];
        assert(next + joined(rest) =~= s);
        lemma_rejoin(rest, next);
        assert(seq![t] + rest =~= ts);
    }
}

/// The tokenizer does not care how tokens are spaced. Where a text is
/// split into tokens and none of them is of kind `Others`, the spellings of
/// those tokens, joined by single spaces, are split into the same tokens
/// again, and so into tokens of the same kinds.
pub proof fn lemma_spacing_does_not_matter(s: Seq<char>)
    requires
        lex(s) is Ok,
        forall|k: int| 0 <= k < lex(s).unwrap().len() ==> (#[trigger] lex(s).unwrap()[k]).kind
            != Kind::Others,
    ensures
        lex(joined(lex(s).unwrap())) == lex(s),
{
    let ts = lex(s).unwrap();
    lemma_lexed_is_proper(s, 0);
    lemma_rejoin(ts, Seq::empty());
    assert(Seq::<char>::empty() + joined(ts) =~= joined(ts));
}

/// Appends the decimal digits of `n` to `out`.
fn push_digits(out: &mut String, n: u64)
    ensures
        final(out)@ == old(out)@ + digits_of(n as nat),
    decreases n,
{
    if n >= 10 {
        push_digits(out, n / 10);
    }
    let d: u8 = (n % 10) as u8;
    let c: char = (48u8 + d) as char;
    assert(c == digit_char((n % 10) as int));
    out.push(c);
    proof {
        if n < 10 {
            assert(old(out)@.push(c) =~= old(out)@ + digits_of(n as nat));
        } else {
            assert((old(out)@ + digits_of((n / 10) as nat)).push(c) =~= old(out)@ + digits_of(
                n as nat,
            ));
        }
    }
}

/// The spelling of a punctuation mark or operator.
fn spelling(kind: Kind) -> (r: String)
    ensures
        r@ == spelling_of(kind),
{
    proof {
        reveal_strlit("(");
        reveal_strlit(")");
        reveal_strlit("{");
        reveal_strlit("}");
        reveal_strlit("+");
        reveal_strlit("-");
        reveal_strlit("*");
        reveal_strlit("/");
        reveal_strlit("==");
        reveal_strlit("!=");
        reveal_strlit("<");
        reveal_strlit("<=");
        reveal_strlit(">");
        reveal_strlit(">=");
        reveal_strlit("=");
        reveal_strlit("+=");
        reveal_strlit("-=");
        reveal_strlit("*=");
        reveal_strlit("/=");
        reveal_strlit(";");
        reveal_strlit("");
    }
    let text: &str = match kind {
        Kind::Lparen => "(",
        Kind::Rparen => ")",
        Kind::Lbrace => "{",
        Kind::Rbrace => "}",
        Kind::Plus => "+",
        Kind::Minus => "-",
        Kind::Multi => "*",
        Kind::Divi => "/",
        Kind::Equal => "==",
        Kind::NotEq => "!=",
        Kind::Less => "<",
        Kind::LessEq => "<=",
        Kind::Greater => ">",
        Kind::GreaterEq => ">=",
        Kind::Assign => "=",
        Kind::Addasgn => "+=",
        Kind::Mnuasgn => "-=",
        Kind::Multiasgn => "*=",
        Kind::Divasgn => "/=",
        Kind::Semicolon => ";",
        _ => "",
    };
    assert(text@ =~= spelling_of(kind));
    String::from_str(text)
}

impl Token {
    /// How the token is spelled in a source text.
    pub fn lexeme(&self) -> (r: String)
        ensures
            r@ == lexeme(self@),
    {
        match self.kind {
            Kind::Ident | Kind::If | Kind::Else | Kind::Print | Kind::Nyaan => self.text.clone(),
            Kind::Int => {
                let mut out: String = String::new();
                if self.val < 0 {
                    out.push('-');
                    push_digits(&mut out, (0 - self.val as i64) as u64);
                    assert(out@ =~= seq!['-'] + digits_of((-self.val) as nat));
                } else {
                    push_digits(&mut out, self.val as u64);
                    assert(out@ =~= digits_of(self.val as nat));
                }
                out
            },
            Kind::Char => {
                let mut out: String = String::new();
                out.push('\'');
                out.push(self.chr);
                out.push('\'');
                assert(out@ =~= seq!['\'', self.chr, '\'']);
                out
            },
            Kind::Str => {
                let mut out: String = String::new();
                out.push('"');
                out.append(self.text.as_str());
                out.push('"');
                assert(out@ =~= seq!['"'] + self.text@ + seq!['"']);
                out
            },
            _ => spelling(self.kind),
        }
    }
}

/// What is left to join from index `i` on, behind the spellings before it.
pub open spec fn joined_from(ts: Seq<TokenView>, i: int) -> Seq<char> {
    if i >= ts.len() {
        Seq::empty()
    } else if i == 0 {
        joined(ts)
    } else {
        seq![' '] + joined(ts.skip(i))
    }
}

/// Spells a sequence of tokens as a text: the spellings of the tokens, in
/// order, with one space between each two.
pub fn join_tokens(tokens: &Vec<Token>) -> (r: String)
    ensures
        r@ == joined(token_views(tokens@)),
{
    let ghost ts = token_views(tokens@);
    let mut out: String = String::new();
    let mut i: usize = 0;
    assert(out@ + joined_from(ts, 0) =~= joined(ts));
    while i < tokens.len()
        invariant
            i <= tokens@.len(),
            ts == token_views(tokens@),
            out@ + joined_from(ts, i as int) == joined(ts),
        decreases tokens@.len() - i,
    {
        let ghost before = out@;
        if i > 0 {
            out.push(' ');
        }
        let word: String = tokens[i].lexeme();
        out.append(word.as_str());
        proof {
            let rest = ts.skip(i as int);
            assert(rest[0] == ts[i as int]);
            assert(rest.skip(1) =~= ts.skip(i + 1));
            assert(ts.skip(0) =~= ts);
            if i + 1 < ts.len() {
                assert(joined(rest) == lexeme(ts[i as int]) + seq![' '] + joined(ts.skip(i + 1)));
            } else {
                assert(joined(rest) == lexeme(ts[i as int]));
            }
            assert(out@ + joined_from(ts, i + 1) =~= before + joined_from(ts, i as int));
        }
        i = i + 1;
    }
    assert(out@ + Seq::<char>::empty() =~= out@);
    out
}

} // verus!
