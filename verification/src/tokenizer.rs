//! The tokenizer: splits a source text into classified tokens, ending with
//! one end-of-input token.
use vstd::prelude::*;
use std::str::Chars;
use vstd::std_specs::iter::IteratorSpec;
use crate::token::{Ch, Kind, KeyWd, LexError, Token, TokenView};
use crate::token::{is_key_wd_tbl, key_wd_find, key_wd_lookup, key_wd_tbl, key_wd_val, plain_token};
use crate::token::token_views;

verus! {

/// `String::push`: appends the character to the end of the string.
pub assume_specification[ String::push ](s: &mut String, ch: char)
    ensures
        final(s)@ == old(s)@.push(ch),
;

/// The class of the character with code `n`. Codes from 256 on have no
/// class of their own.
pub open spec fn class_of_code(n: int) -> Ch {
    if '0' as int <= n <= '9' as int {
        Ch::Digit
    } else if 'A' as int <= n <= 'Z' as int || 'a' as int <= n <= 'z' as int || n == '_' as int {
        Ch::Letter
    } else if n == '=' as int {
        Ch::Assign
    } else if n == '(' as int {
        Ch::Lparen
    } else if n == ')' as int {
        Ch::Rparen
    } else if n == '{' as int {
        Ch::Lbrace
    } else if n == '}' as int {
        Ch::Rbrace
    } else if n == '<' as int {
        Ch::Less
    } else if n == '>' as int {
        Ch::Greater
    } else if n == '+' as int {
        Ch::Plus
    } else if n == '-' as int {
        Ch::Minus
    } else if n == '*' as int {
        Ch::Multi
    } else if n == '/' as int {
        Ch::Divi
    } else if n == '\'' as int {
        Ch::SngQ
    } else if n == '"' as int {
        Ch::DblQ
    } else if n == ';' as int {
        Ch::Semicolon
    } else if n == '!' as int {
        Ch::Exclam
    } else {
        Ch::Others
    }
}

/// The class of a character.
pub open spec fn class_of(c: char) -> Ch {
    class_of_code(c as int)
}

/// Whether `t` is the character-class table.
pub open spec fn is_ch_type(t: Seq<Ch>) -> bool {
    &&& t.len() == 256
    &&& forall|i: int| 0 <= i < 256 ==> #[trigger] t[i] == class_of_code(i)
}

/// The kinds of run that the scanner reads greedily.
pub enum Run {
    /// Spaces and newlines between tokens.
    Blank,
    /// Letters and digits of an identifier or keyword.
    Word,
    /// Digits of an integer literal.
    Digits,
    /// The characters of a string literal, up to the closing quote.
    Text,
}

/// Whether character `c` continues a run of kind `r`.
pub open spec fn in_run(r: Run, c: char) -> bool {
    match r {
        Run::Blank => c == ' ' || c == '\n',
        Run::Word => class_of(c) == Ch::Letter || class_of(c) == Ch::Digit,
        Run::Digits => class_of(c) == Ch::Digit,
        Run::Text => c != '"',
    }
}

/// The character at index `i` of the text, if there is one.
pub open spec fn char_at(s: Seq<char>, i: int) -> Option<char> {
    if 0 <= i < s.len() {
        Some(s[i])
    } else {
        None
    }
}

/// The index at which the run of kind `r` that starts at `i` ends: the first
/// index from `i` on whose character does not continue it, or the length.
pub open spec fn run_end(s: Seq<char>, i: int, r: Run) -> int
    decreases s.len() - i,
{
    if 0 <= i < s.len() && in_run(r, s[i]) {
        run_end(s, i + 1, r)
    } else {
        i
    }
}

/// The number that a sequence of decimal digits writes.
pub open spec fn decimal_value(s: Seq<char>) -> nat
    decreases s.len(),
{
    if s.len() == 0 {
        0
    } else {
        (decimal_value(s.drop_last()) * 10 + (s.last() as int - '0' as int)) as nat
    }
}

/// The kind of an identifier-like word: what the keyword table gives, else
/// `Ident`.
pub open spec fn word_kind(w: Seq<char>) -> Kind {
    match key_wd_find(w, 0) {
        Some(k) => k,
        None => Kind::Ident,
    }
}

/// The kind of a one-character token: what the keyword table gives, else
/// `Others`.
pub open spec fn punct_kind(c: char) -> Kind {
    match key_wd_find(seq![c], 0) {
        Some(k) => k,
        None => Kind::Others,
    }
}

/// The kind of the two-character operator made of `c` and `=`.
pub open spec fn pair_kind(c: char) -> Kind {
    if c == '=' {
        Kind::Equal
    } else if c == '!' {
        Kind::NotEq
    } else if c == '+' {
        Kind::Addasgn
    } else if c == '<' {
        Kind::LessEq
    } else {
        Kind::GreaterEq
    }
}

/// Whether a character of this class may open a two-character operator.
pub open spec fn opens_pair(k: Ch) -> bool {
    k == Ch::Assign || k == Ch::Plus || k == Ch::Exclam || k == Ch::Less || k == Ch::Greater
}

/// The token that starts at index `i` of `s`, where a character stands that
/// is not blank, and the index just behind it.
pub open spec fn scan_at(s: Seq<char>, i: int) -> Result<(TokenView, int), LexError>
    recommends
        0 <= i < s.len(),
{
    let c = s[i];
    let k = class_of(c);
    if k == Ch::Letter {
        let j = run_end(s, i, Run::Word);
        let w = s.subrange(i, j);
        Ok((TokenView { text: w, chr: ' ', kind: word_kind(w), val: 0 }, j))
    } else if k == Ch::Digit {
        let j = run_end(s, i, Run::Digits);
        let v = decimal_value(s.subrange(i, j));
        if j < s.len() && class_of(s[j]) == Ch::Letter {
            Err(LexError::DigitFollowedByLetter)
        } else if v > i32::MAX {
            Err(LexError::IntegerTooLarge)
        } else {
            Ok((TokenView { text: Seq::empty(), chr: ' ', kind: Kind::Int, val: v as i32 }, j))
        }
    } else if k == Ch::SngQ {
        if i + 2 < s.len() && s[i + 2] == '\'' {
            Ok((TokenView { text: Seq::empty(), chr: s[i + 1], kind: Kind::Char, val: 0 }, i + 3))
        } else {
            Err(LexError::UnterminatedChar)
        }
    } else if k == Ch::DblQ {
        let j = run_end(s, i + 1, Run::Text);
        if j >= s.len() {
            Err(LexError::UnterminatedString)
        } else {
            Ok(
                (
                    TokenView { text: s.subrange(i + 1, j), chr: ' ', kind: Kind::Str, val: 0 },
                    j + 1,
                ),
            )
        }
    } else if opens_pair(k) && i + 1 < s.len() && s[i + 1] == '=' {
        Ok((plain_token(pair_kind(c)), i + 2))
    } else {
        Ok((plain_token(punct_kind(c)), i + 1))
    }
}

/// The first token of `s` at or behind index `p`, and the index just behind
/// it. Where only blanks are left the token is the end-of-input token.
pub open spec fn scan_from(s: Seq<char>, p: int) -> Result<(TokenView, int), LexError> {
    let i = run_end(s, p, Run::Blank);
    if i >= s.len() {
        Ok((plain_token(Kind::Endlist), s.len() as int))
    } else {
        scan_at(s, i)
    }
}

/// The tokens of `s` from index `p` on: one after the other until the
/// end-of-input token, which is the last one; or the first error met.
pub open spec fn lex_from(s: Seq<char>, p: int) -> Result<Seq<TokenView>, LexError>
    decreases s.len() - p,
{
    match scan_from(s, p) {
        Err(e) => Err(e),
        Ok((t, q)) => if t.kind == Kind::Endlist || q <= p || q > s.len() {
            Ok(seq![t])
        } else {
            match lex_from(s, q) {
                Err(e) => Err(e),
                Ok(ts) => Ok(seq![t] + ts),
            }
        },
    }
}

/// The tokens of the source text `s`, or the first error met.
pub open spec fn lex(s: Seq<char>) -> Result<Seq<TokenView>, LexError> {
    lex_from(s, 0)
}

/// The tokens `done`, followed by the outcome `rest` of scanning on.
pub open spec fn lex_after(done: Seq<TokenView>, rest: Result<Seq<TokenView>, LexError>) -> Result<
    Seq<TokenView>,
    LexError,
> {
    match rest {
        Ok(ts) => Ok(done + ts),
        Err(e) => Err(e),
    }
}

/// A run ends at or behind its start and within the text; every character
/// in it continues the run, and the one at its end, if any, does not.
pub proof fn lemma_run_end(s: Seq<char>, i: int, r: Run)
    requires
        0 <= i <= s.len(),
    ensures
        i <= run_end(s, i, r) <= s.len(),
        forall|j: int| i <= j < run_end(s, i, r) ==> in_run(r, #[trigger] s[j]),
        run_end(s, i, r) < s.len() ==> !in_run(r, s[run_end(s, i, r)]),
    decreases s.len() - i,
{
    if i < s.len() && in_run(r, s[i]) {
        lemma_run_end(s, i + 1, r);
    }
}

/// Whether the end-of-input token is the last of the tokens and occurs
/// nowhere else among them.
pub open spec fn ends_once(ts: Seq<TokenView>) -> bool {
    &&& ts.len() >= 1
    &&& ts.last() == plain_token(Kind::Endlist)
    &&& forall|k: int| 0 <= k < ts.len() - 1 ==> (#[trigger] ts[k]).kind != Kind::Endlist
}

/// No entry of the keyword table that a word or a character can match is
/// the end-of-input entry.
proof fn lemma_no_end_in_table(w: Seq<char>, from: int)
    requires
        w.len() > 0,
        0 <= from,
    ensures
        key_wd_find(w, from) != Some(Kind::Endlist),
    decreases 25 - from,
{
    if from < 25 && key_wd_val(from) != w {
        lemma_no_end_in_table(w, from + 1);
    }
}

/// The tokens of a text end in the end-of-input token, which occurs
/// nowhere else among them.
pub proof fn lemma_lex_ends_once(s: Seq<char>, p: int)
    requires
        0 <= p,
        lex_from(s, p) is Ok,
    ensures
        ends_once(lex_from(s, p).unwrap()),
    decreases s.len() - p,
{
    let ts = lex_from(s, p).unwrap();
    let i = run_end(s, p, Run::Blank);
    if p <= s.len() {
        lemma_run_end(s, p, Run::Blank);
    }
    let (t, q) = scan_from(s, p).unwrap();
    if i < s.len() {
        let c = s[i];
        lemma_run_end(s, i + 1, Run::Word);
        lemma_run_end(s, i, Run::Word);
        lemma_run_end(s, i + 1, Run::Digits);
        lemma_run_end(s, i, Run::Digits);
        lemma_run_end(s, i + 1, Run::Text);
        if class_of(c) == Ch::Letter {
            let w = s.subrange(i, run_end(s, i, Run::Word));
            lemma_no_end_in_table(w, 0);
        }
        lemma_no_end_in_table(seq![c], 0);
        assert(t.kind != Kind::Endlist);
        assert(i < q <= s.len());
        let rest = lex_from(s, q).unwrap();
        assert(ts == seq![t] + rest);
        lemma_lex_ends_once(s, q);
        assert(ts.last() == rest.last());
        assert forall|k: int| 0 <= k < ts.len() - 1 implies (#[trigger] ts[k]).kind
            != Kind::Endlist by {
            if k > 0 {
                assert(ts[k] == rest[k - 1]);
            }
        }
    }
}

/// Builds the character-class table: for each of the 256 codes the class
/// of its character.
pub fn init_ch_type() -> (t: [Ch; 256])
    ensures
        is_ch_type(t@),
{
    let mut t: [Ch; 256] = [Ch::Others; 256];
    let mut i: usize = 48;
    while i <= 57
        invariant
            48 <= i <= 58,
            forall|j: int| 0 <= j < 256 ==> #[trigger] t@[j] == (if 48 <= j < i {
                Ch::Digit
            } else {
                Ch::Others
            }),
        decreases 58 - i,
    {
        t[i] = Ch::Digit;
        i = i + 1;
    }
    i = 65;
    while i <= 90
        invariant
            65 <= i <= 91,
            forall|j: int| 0 <= j < 256 ==> #[trigger] t@[j] == (if 48 <= j <= 57 {
                Ch::Digit
            } else if 65 <= j < i {
                Ch::Letter
            } else {
                Ch::Others
            }),
        decreases 91 - i,
    {
        t[i] = Ch::Letter;
        i = i + 1;
    }
    i = 97;
    while i <= 122
        invariant
            97 <= i <= 123,
            forall|j: int| 0 <= j < 256 ==> #[trigger] t@[j] == (if 48 <= j <= 57 {
                Ch::Digit
            } else if 65 <= j <= 90 || 97 <= j < i {
                Ch::Letter
            } else {
                Ch::Others
            }),
        decreases 123 - i,
    {
        t[i] = Ch::Letter;
        i = i + 1;
    }
    t[95] = Ch::Letter;
    t[61] = Ch::Assign;
    t[40] = Ch::Lparen;
    t[41] = Ch::Rparen;
    t[123] = Ch::Lbrace;
    t[125] = Ch::Rbrace;
    t[60] = Ch::Less;
    t[62] = Ch::Greater;
    t[43] = Ch::Plus;
    t[45] = Ch::Minus;
    t[42] = Ch::Multi;
    t[47] = Ch::Divi;
    t[39] = Ch::SngQ;
    t[34] = Ch::DblQ;
    t[59] = Ch::Semicolon;
    t[33] = Ch::Exclam;
    t
}

/// The class of `c` by the table; a character beyond the table is `Others`.
fn classify(ch_list: &[Ch; 256], c: char) -> (k: Ch)
    requires
        is_ch_type(ch_list@),
    ensures
        k == class_of(c),
{
    let n: u32 = c as u32;
    if n < 256 {
        ch_list[n as usize]
    } else {
        Ch::Others
    }
}

/// The character at index `pos`, `None` at the end of the text.
fn next_ch(text: &Vec<char>, pos: usize) -> (c: Option<char>)
    ensures
        c == char_at(text@, pos as int),
{
    if pos < text.len() {
        Some(text[pos])
    } else {
        None
    }
}

/// Whether the character in hand, if there is one, continues a run of the
/// given kind.
fn continues(ch_list: &[Ch; 256], run: &Run, ch: Option<char>) -> (b: bool)
    requires
        is_ch_type(ch_list@),
    ensures
        b == (ch is Some && in_run(*run, ch.unwrap())),
{
    match ch {
        None => false,
        Some(c) => match run {
            Run::Blank => c == ' ' || c == '\n',
            Run::Word => {
                let class: Ch = classify(ch_list, c);
                class == Ch::Letter || class == Ch::Digit
            },
            Run::Digits => classify(ch_list, c) == Ch::Digit,
            Run::Text => c != '"',
        },
    }
}

/// Scans the next token of `text` from `*pos` on and moves `*pos` behind it.
fn next_tkn(
    text: &Vec<char>,
    pos: &mut usize,
    ch_list: &[Ch; 256],
    tbl: &[KeyWd<'static>; 25],
) -> (r: Result<Token, LexError>)
    requires
        *old(pos) <= text@.len(),
        is_ch_type(ch_list@),
        is_key_wd_tbl(tbl@),
    ensures
        match scan_from(text@, *old(pos) as int) {
            Ok((t, q)) => r is Ok && r.unwrap()@ == t && *final(pos) == q,
            Err(e) => r == Err::<Token, LexError>(e),
        },
        *old(pos) <= *final(pos) <= text@.len(),
        r is Ok && r.unwrap().kind != Kind::Endlist ==> *old(pos) < *final(pos),
{
    let n: usize = text.len();
    let ghost s = text@;
    let ghost p = *pos as int;
    let mut k: usize = *pos;
    let mut ch: Option<char> = next_ch(text, k);
    while continues(ch_list, &Run::Blank, ch)
        invariant
            p <= k <= s.len(),
            s == text@,
            n == s.len(),
            is_ch_type(ch_list@),
            ch == char_at(s, k as int),
            run_end(s, p, Run::Blank) == run_end(s, k as int, Run::Blank),
        decreases s.len() - k,
    {
        k = k + 1;
        ch = next_ch(text, k);
    }
    let c: char = match ch {
        None => {
            *pos = k;
            return Ok(Token::of_kind(Kind::Endlist));
        },
        Some(c) => c,
    };
    let i: usize = k;
    let class: Ch = classify(ch_list, c);
    assert(run_end(s, p, Run::Blank) == i);
    if class == Ch::Letter {
        let mut word: Vec<char> = Vec::new();
        let mut name: String = String::new();
        while continues(ch_list, &Run::Word, ch)
            invariant
                i <= k <= s.len(),
                s == text@,
            n == s.len(),
                is_ch_type(ch_list@),
                ch == char_at(s, k as int),
                run_end(s, i as int, Run::Word) == run_end(s, k as int, Run::Word),
                word@ == s.subrange(i as int, k as int),
                name@ == s.subrange(i as int, k as int),
            decreases s.len() - k,
        {
            word.push(ch.unwrap());
            name.push(ch.unwrap());
            k = k + 1;
            ch = next_ch(text, k);
            assert(s.subrange(i as int, k as int) =~= s.subrange(i as int, k - 1).push(s[k - 1]));
        }
        let kind: Kind = match key_wd_lookup(tbl, &word) {
            Some(found) => found,
            None => Kind::Ident,
        };
        *pos = k;
        Ok(Token { text: name, chr: ' ', kind, val: 0 })
    } else if class == Ch::Digit {
        let mut acc: u64 = 0;
        let mut big: bool = false;
        while continues(ch_list, &Run::Digits, ch)
            invariant
                i <= k <= s.len(),
                s == text@,
            n == s.len(),
                is_ch_type(ch_list@),
                ch == char_at(s, k as int),
                run_end(s, i as int, Run::Digits) == run_end(s, k as int, Run::Digits),
                !big ==> acc == decimal_value(s.subrange(i as int, k as int)) && acc <= i32::MAX,
                big ==> decimal_value(s.subrange(i as int, k as int)) > i32::MAX,
            decreases s.len() - k,
        {
            let d: u64 = (ch.unwrap() as u32 - 48) as u64;
            proof {
                let before = s.subrange(i as int, k as int);
                let after = s.subrange(i as int, k + 1);
                assert(after.drop_last() =~= before);
                assert(after.last() == s[k as int]);
                assert(decimal_value(after) == decimal_value(before) * 10 + d);
            }
            if !big {
                acc = acc * 10 + d;
                if acc > 2147483647 {
                    big = true;
                }
            }
            k = k + 1;
            ch = next_ch(text, k);
        }
        match ch {
            Some(behind) => {
                if classify(ch_list, behind) == Ch::Letter {
                    return Err(LexError::DigitFollowedByLetter);
                }
            },
            None => {},
        }
        if big {
            return Err(LexError::IntegerTooLarge);
        }
        *pos = k;
        Ok(Token { text: String::new(), chr: ' ', kind: Kind::Int, val: acc as i32 })
    } else if class == Ch::SngQ {
        let inside: Option<char> = next_ch(text, i + 1);
        match inside {
            None => Err(LexError::UnterminatedChar),
            Some(chr) => match next_ch(text, i + 2) {
                Some('\'') => {
                    *pos = i + 3;
                    Ok(Token { text: String::new(), chr, kind: Kind::Char, val: 0 })
                },
                _ => Err(LexError::UnterminatedChar),
            },
        }
    } else if class == Ch::DblQ {
        let mut content: String = String::new();
        k = i + 1;
        ch = next_ch(text, k);
        while continues(ch_list, &Run::Text, ch)
            invariant
                i + 1 <= k <= s.len(),
                s == text@,
            n == s.len(),
                is_ch_type(ch_list@),
                ch == char_at(s, k as int),
                run_end(s, i + 1, Run::Text) == run_end(s, k as int, Run::Text),
                content@ == s.subrange(i + 1, k as int),
            decreases s.len() - k,
        {
            content.push(ch.unwrap());
            k = k + 1;
            ch = next_ch(text, k);
            assert(s.subrange(i + 1, k as int) =~= s.subrange(i + 1, k - 1).push(s[k - 1]));
        }
        if ch.is_none() {
            return Err(LexError::UnterminatedString);
        }
        *pos = k + 1;
        Ok(Token { text: content, chr: ' ', kind: Kind::Str, val: 0 })
    } else {
        let behind: Option<char> = next_ch(text, i + 1);
        let pair: bool = match behind {
            Some('=') => class == Ch::Assign || class == Ch::Plus || class == Ch::Exclam || class
                == Ch::Less || class == Ch::Greater,
            _ => false,
        };
        if pair {
            let kind: Kind = if c == '=' {
                Kind::Equal
            } else if c == '!' {
                Kind::NotEq
            } else if c == '+' {
                Kind::Addasgn
            } else if c == '<' {
                Kind::LessEq
            } else {
                Kind::GreaterEq
            };
            *pos = i + 2;
            Ok(Token::of_kind(kind))
        } else {
            let mut word: Vec<char> = Vec::new();
            word.push(c);
            assert(word@ =~= seq![c]);
            let kind: Kind = match key_wd_lookup(tbl, &word) {
                Some(found) => found,
                None => Kind::Others,
            };
            *pos = i + 1;
            Ok(Token::of_kind(kind))
        }
    }
}

/// Splits the characters of a source text into tokens. The last token is
/// the end-of-input token.
pub fn tokenize_chars(text: &Vec<char>) -> (r: Result<Vec<Token>, LexError>)
    ensures
        match lex(text@) {
            Ok(ts) => r is Ok && token_views(r.unwrap()@) == ts,
            Err(e) => r == Err::<Vec<Token>, LexError>(e),
        },
        r is Ok ==> ends_once(token_views(r.unwrap()@)),
{
    proof {
        if lex(text@) is Ok {
            lemma_lex_ends_once(text@, 0);
        }
    }
    let ch_list: [Ch; 256] = init_ch_type();
    let tbl: [KeyWd<'static>; 25] = key_wd_tbl();
    let mut tkn_res: Vec<Token> = Vec::new();
    let mut pos: usize = 0;
    loop
        invariant
            pos <= text@.len(),
            is_ch_type(ch_list@),
            is_key_wd_tbl(tbl@),
            lex(text@) == lex_after(token_views(tkn_res@), lex_from(text@, pos as int)),
            lex(text@) is Ok ==> ends_once(lex(text@).unwrap()),
        decreases text@.len() - pos,
    {
        let ghost before = token_views(tkn_res@);
        let ghost from = pos as int;
        match next_tkn(text, &mut pos, &ch_list, &tbl) {
            Err(e) => {
                return Err(e);
            },
            Ok(token) => {
                let last: bool = token.kind == Kind::Endlist;
                let ghost t = token@;
                tkn_res.push(token);
                proof {
                    assert(token_views(tkn_res@) =~= before.push(t));
                    assert(before + seq![t] =~= before.push(t));
                    match lex_from(text@, pos as int) {
                        Ok(ts) => {
                            assert(before + (seq![t] + ts) =~= before.push(t) + ts);
                        },
                        Err(e) => {},
                    }
                }
                if last {
                    return Ok(tkn_res);
                }
            },
        }
    }
}

/// Splits a source text into tokens. The last token is the end-of-input
/// token; the reader is left at its end. The reader must be one that is
/// known to come to an end, as every reader is that `str::chars` makes.
pub fn tokenize(text: &mut Chars) -> (r: Result<Vec<Token>, LexError>)
    requires
        (*old(text)).decrease() is Some,
    ensures
        match lex((*old(text)).remaining()) {
            Ok(ts) => r is Ok && token_views(r.unwrap()@) == ts,
            Err(e) => r == Err::<Vec<Token>, LexError>(e),
        },
        r is Ok ==> ends_once(token_views(r.unwrap()@)),
        (*final(text)).remaining().len() == 0,
{
    let chars: Vec<char> = read_all(text);
    tokenize_chars(&chars)
}

/// Reads into a vector what the reader has left.
fn read_all(text: &mut Chars) -> (v: Vec<char>)
    requires
        (*old(text)).decrease() is Some,
    ensures
        v@ == (*old(text)).remaining(),
        (*final(text)).remaining().len() == 0,
{
    broadcast use vstd::string::group_string_axioms;

    let mut v: Vec<char> = Vec::new();
    loop
        invariant
            v@ + (*text).remaining() == (*old(text)).remaining(),
            (*text).decrease() is Some,
        ensures
            v@ == (*old(text)).remaining(),
            (*text).remaining().len() == 0,
        decreases (*text).decrease()->0,
    {
        match text.next() {
            Some(c) => {
                v.push(c);
            },
            None => {
                break ;
            },
        }
    }
    v
}

} // verus!
