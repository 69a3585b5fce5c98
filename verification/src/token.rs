//! Tokens: the lexical categories, the token record, the keyword table and
//! the character classes that the scanner works with.
use vstd::prelude::*;

verus! {

/// The lexical and syntactic categories of the language.
#[derive(PartialEq, Eq, Hash, Copy, Clone, Debug, Structural)]
pub enum Kind {
    Lparen,
    Rparen,
    Plus,
    Minus,
    Multi,
    Divi,
    Equal,
    NotEq,
    Less,
    LessEq,
    Greater,
    GreaterEq,
    SngQ,
    DblQ,
    Assign,
    Semicolon,
    If,
    Else,
    Print,
    Ident,
    Int,
    Str,
    Letter,
    Digit,
    Nulkind,
    EofTkn,
    Others,
    Endlist,
    Lbrace,
    Rbrace,
    Char,
    Nyaan,
    Addasgn,
    Mnuasgn,
    Multiasgn,
    Divasgn,
}

/// One token. Which of `text`, `chr` and `val` carries the payload depends on
/// `kind`: `text` for identifiers, keywords and string literals, `chr` for
/// character literals, `val` for integer literals.
#[derive(PartialEq, Clone, Debug)]
pub struct Token {
    pub text: String,
    pub chr: char,
    pub kind: Kind,
    pub val: i32,
}

/// The mathematical content of a [`Token`].
pub ghost struct TokenView {
    pub text: Seq<char>,
    pub chr: char,
    pub kind: Kind,
    pub val: i32,
}

impl View for Token {
    type V = TokenView;

    open spec fn view(&self) -> TokenView {
        TokenView { text: self.text@, chr: self.chr, kind: self.kind, val: self.val }
    }
}

/// The views of a sequence of tokens, in order.
pub open spec fn token_views(ts: Seq<Token>) -> Seq<TokenView> {
    Seq::new(ts.len(), |i: int| ts[i]@)
}

/// A token with no payload: empty text, a blank character, value zero.
pub open spec fn plain_token(kind: Kind) -> TokenView {
    TokenView { text: Seq::empty(), chr: ' ', kind, val: 0 }
}

impl Token {
    /// The blank token: kind `Others` and no payload.
    pub fn new() -> (t: Token)
        ensures
            t@ == plain_token(Kind::Others),
    {
        Token { text: String::new(), chr: ' ', kind: Kind::Others, val: 0 }
    }

    /// A token of the given kind with no payload.
    pub fn of_kind(kind: Kind) -> (t: Token)
        ensures
            t@ == plain_token(kind),
    {
        Token { text: String::new(), chr: ' ', kind, val: 0 }
    }
}

/// One entry of the keyword table: a spelling and the kind it stands for.
pub struct KeyWd<'a> {
    pub val: &'a str,
    pub kind: Kind,
}

/// The classes into which the scanner sorts characters.
#[derive(PartialEq, Eq, Debug, Copy, Clone, Structural)]
pub enum Ch {
    Others,
    Digit,
    Letter,
    Assign,
    Lparen,
    Rparen,
    Less,
    Greater,
    Plus,
    Minus,
    Multi,
    Divi,
    SngQ,
    DblQ,
    Semicolon,
    Lbrace,
    Rbrace,
    EOF,
    Exclam,
}

/// Why a source text could not be split into tokens.
#[derive(PartialEq, Eq, Debug, Copy, Clone, Structural)]
pub enum LexError {
    /// A `'` that is not followed by one character and a closing `'`.
    UnterminatedChar,
    /// A `"` with no closing `"` before the end of the input.
    UnterminatedString,
    /// A run of digits with a letter directly behind it.
    DigitFollowedByLetter,
    /// An integer literal above `i32::MAX`.
    IntegerTooLarge,
}

/// Number of entries of the keyword table.
pub open spec fn key_wd_count() -> int {
    25
}

/// Spelling of entry `i` of the keyword table.
pub open spec fn key_wd_val(i: int) -> Seq<char> {
    if i == 0 {
        seq!['(']
    } else if i == 1 {
        seq![')']
    } else if i == 2 {
        seq!['{']
    } else if i == 3 {
        seq!['}']
    } else if i == 4 {
        seq!['+']
    } else if i == 5 {
        seq!['-']
    } else if i == 6 {
        seq!['*']
    } else if i == 7 {
        seq!['/']
    } else if i == 8 {
        seq!['=', '=']
    } else if i == 9 {
        seq!['!', '=']
    } else if i == 10 {
        seq!['<']
    } else if i == 11 {
        seq!['<', '=']
    } else if i == 12 {
        seq!['>']
    } else if i == 13 {
        seq!['>', '=']
    } else if i == 14 {
        seq!['=']
    } else if i == 15 {
        seq!['+', '=']
    } else if i == 16 {
        seq!['-', '=']
    } else if i == 17 {
        seq!['*', '=']
    } else if i == 18 {
        seq!['/', '=']
    } else if i == 19 {
        seq![';']
    } else if i == 20 {
        Seq::empty()
    } else if i == 21 {
        seq!['i', 'f']
    } else if i == 22 {
        seq!['e', 'l', 's', 'e']
    } else if i == 23 {
        seq!['p', 'r', 'i', 'n', 't']
    } else {
        seq!['n', 'y', 'a', 'a', 'n']
    }
}

/// Kind of entry `i` of the keyword table.
pub open spec fn key_wd_knd(i: int) -> Kind {
    if i == 0 {
        Kind::Lparen
    } else if i == 1 {
        Kind::Rparen
    } else if i == 2 {
        Kind::Lbrace
    } else if i == 3 {
        Kind::Rbrace
    } else if i == 4 {
        Kind::Plus
    } else if i == 5 {
        Kind::Minus
    } else if i == 6 {
        Kind::Multi
    } else if i == 7 {
        Kind::Divi
    } else if i == 8 {
        Kind::Equal
    } else if i == 9 {
        Kind::NotEq
    } else if i == 10 {
        Kind::Less
    } else if i == 11 {
        Kind::LessEq
    } else if i == 12 {
        Kind::Greater
    } else if i == 13 {
        Kind::GreaterEq
    } else if i == 14 {
        Kind::Assign
    } else if i == 15 {
        Kind::Addasgn
    } else if i == 16 {
        Kind::Mnuasgn
    } else if i == 17 {
        Kind::Multiasgn
    } else if i == 18 {
        Kind::Divasgn
    } else if i == 19 {
        Kind::Semicolon
    } else if i == 20 {
        Kind::Endlist
    } else if i == 21 {
        Kind::If
    } else if i == 22 {
        Kind::Else
    } else if i == 23 {
        Kind::Print
    } else {
        Kind::Nyaan
    }
}

/// Whether `t` holds the keyword table, entry by entry.
pub open spec fn is_key_wd_tbl(t: Seq<KeyWd<'static>>) -> bool {
    &&& t.len() == key_wd_count()
    &&& forall|i: int|
        0 <= i < key_wd_count() ==> (#[trigger] t[i]).val@ == key_wd_val(i) && t[i].kind
            == key_wd_knd(i)
}

/// The kind that the first entry at or after `from` with spelling `w` gives,
/// if there is one.
pub open spec fn key_wd_find(w: Seq<char>, from: int) -> Option<Kind>
    decreases key_wd_count() - from,
{
    if from < 0 || from >= key_wd_count() {
        None
    } else if key_wd_val(from) == w {
        Some(key_wd_knd(from))
    } else {
        key_wd_find(w, from + 1)
    }
}

/// The keyword table: every punctuation mark, operator and keyword with its
/// kind, in the order in which a lookup tries them.
pub fn key_wd_tbl() -> (t: [KeyWd<'static>; 25])
    ensures
        is_key_wd_tbl(t@),
{
    let t = [
        KeyWd { val: "(", kind: Kind::Lparen },
        KeyWd { val: ")", kind: Kind::Rparen },
        KeyWd { val: "{", kind: Kind::Lbrace },
        KeyWd { val: "}", kind: Kind::Rbrace },
        KeyWd { val: "+", kind: Kind::Plus },
        KeyWd { val: "-", kind: Kind::Minus },
        KeyWd { val: "*", kind: Kind::Multi },
        KeyWd { val: "/", kind: Kind::Divi },
        KeyWd { val: "==", kind: Kind::Equal },
        KeyWd { val: "!=", kind: Kind::NotEq },
        KeyWd { val: "<", kind: Kind::Less },
        KeyWd { val: "<=", kind: Kind::LessEq },
        KeyWd { val: ">", kind: Kind::Greater },
        KeyWd { val: ">=", kind: Kind::GreaterEq },
        KeyWd { val: "=", kind: Kind::Assign },
        KeyWd { val: "+=", kind: Kind::Addasgn },
        KeyWd { val: "-=", kind: Kind::Mnuasgn },
        KeyWd { val: "*=", kind: Kind::Multiasgn },
        KeyWd { val: "/=", kind: Kind::Divasgn },
        KeyWd { val: ";", kind: Kind::Semicolon },
        KeyWd { val: "", kind: Kind::Endlist },
        KeyWd { val: "if", kind: Kind::If },
        KeyWd { val: "else", kind: Kind::Else },
        KeyWd { val: "print", kind: Kind::Print },
        KeyWd { val: "nyaan", kind: Kind::Nyaan },
    ];
    proof {
        reveal_strlit("(");
        reveal_strlit(")");
        reveal_strlit("{");
        reveal_strlit("}");
        reveal_strlit("+");
        reveal_strlit("-");
        reveal_strlit("*");
        reveal_strlit("/");
        reveal_strlit("==");
        reveal_strlit("!=");
        reveal_strlit("<");
        reveal_strlit("<=");
        reveal_strlit(">");
        reveal_strlit(">=");
        reveal_strlit("=");
        reveal_strlit("+=");
        reveal_strlit("-=");
        reveal_strlit("*=");
        reveal_strlit("/=");
        reveal_strlit(";");
        reveal_strlit("");
        reveal_strlit("if");
        reveal_strlit("else");
        reveal_strlit("print");
        reveal_strlit("nyaan");
        assert forall|i: int| 0 <= i < key_wd_count() implies (#[trigger] t@[i]).val@
            == key_wd_val(i) && t@[i].kind == key_wd_knd(i) by {
            assert(t@[i].val@ =~= key_wd_val(i));
        }
    }
    t
}

/// Whether the text `lit` spells exactly the characters `w`.
pub fn spells(lit: &str, w: &Vec<char>) -> (r: bool)
    ensures
        r == (lit@ == w@),
{
    let n = lit.unicode_len();
    if n != w.len() {
        return false;
    }
    let mut i: usize = 0;
    while i < n
        invariant
            n == w.len(),
            n == lit@.len(),
            i <= n,
            forall|j: int| 0 <= j < i ==> lit@[j] == w@[j],
        decreases n - i,
    {
        if lit.get_char(i) != w[i] {
            return false;
        }
        i = i + 1;
    }
    assert(lit@ =~= w@);
    true
}

/// Looks `w` up in the keyword table: the kind of the first entry spelled
/// `w`, or `None` where no entry is.
pub fn key_wd_lookup(tbl: &[KeyWd<'static>; 25], w: &Vec<char>) -> (r: Option<Kind>)
    requires
        is_key_wd_tbl(tbl@),
    ensures
        r == key_wd_find(w@, 0),
{
    let mut i: usize = 0;
    while i < 25
        invariant
            i <= 25,
            is_key_wd_tbl(tbl@),
            key_wd_find(w@, 0) == key_wd_find(w@, i as int),
        decreases 25 - i,
    {
        if spells(tbl[i].val, w) {
            return Some(tbl[i].kind);
        }
        i = i + 1;
    }
    None
}

/// The kind that the keyword table gives for a spelling of one character.
pub open spec fn single_kind(c: char) -> Option<Kind> {
    if c == '(' {
        Some(Kind::Lparen)
    } else if c == ')' {
        Some(Kind::Rparen)
    } else if c == '{' {
        Some(Kind::Lbrace)
    } else if c == '}' {
        Some(Kind::Rbrace)
    } else if c == '+' {
        Some(Kind::Plus)
    } else if c == '-' {
        Some(Kind::Minus)
    } else if c == '*' {
        Some(Kind::Multi)
    } else if c == '/' {
        Some(Kind::Divi)
    } else if c == '<' {
        Some(Kind::Less)
    } else if c == '>' {
        Some(Kind::Greater)
    } else if c == '=' {
        Some(Kind::Assign)
    } else if c == ';' {
        Some(Kind::Semicolon)
    } else {
        None
    }
}

/// The kind that the keyword table gives for a spelling that starts with a
/// letter: the four keywords are the only such entries.
pub open spec fn keyword_kind(w: Seq<char>) -> Option<Kind> {
    if w == seq!['i', 'f'] {
        Some(Kind::If)
    } else if w == seq!['e', 'l', 's', 'e'] {
        Some(Kind::Else)
    } else if w == seq!['p', 'r', 'i', 'n', 't'] {
        Some(Kind::Print)
    } else if w == seq!['n', 'y', 'a', 'a', 'n'] {
        Some(Kind::Nyaan)
    } else {
        None
    }
}

/// The length of the spelling of entry `i` of the keyword table.
pub open spec fn key_wd_len(i: int) -> int {
    if i == 20 {
        0
    } else if i == 8 || i == 9 || i == 11 || i == 13 || (15 <= i <= 18) || i == 21 {
        2
    } else if i == 22 {
        4
    } else if i >= 23 {
        5
    } else {
        1
    }
}

/// The spellings of the keyword table have the lengths that `key_wd_len`
/// gives.
pub proof fn lemma_key_wd_lens()
    ensures
        forall|i: int| 0 <= i < key_wd_count() ==> (#[trigger] key_wd_val(i)).len() == key_wd_len(i),
{
    assert forall|i: int| 0 <= i < key_wd_count() implies (#[trigger] key_wd_val(i)).len()
        == key_wd_len(i) by {}
}

/// What the keyword table gives for a spelling of one character.
pub proof fn lemma_find_single(c: char)
    ensures
        key_wd_find(seq![c], 0) == single_kind(c),
{
    let w = seq![c];
    assert(w.len() == 1 && w[0] == c);
    lemma_key_wd_lens();
    assert forall|i: int| 0 <= i < key_wd_count() implies ((#[trigger] key_wd_val(i)) == w <==> (
    key_wd_len(i) == 1 && key_wd_val(i)[0] == c)) by {
        if key_wd_len(i) == 1 && key_wd_val(i)[0] == c {
            assert(key_wd_val(i) =~= w);
        }
    }
    reveal_with_fuel(key_wd_find, 26);
}

/// What the keyword table gives for a spelling that starts with a letter or
/// an underscore.
pub proof fn lemma_find_word(w: Seq<char>)
    requires
        w.len() > 0,
        ('a' <= w[0] <= 'z') || ('A' <= w[0] <= 'Z') || w[0] == '_',
    ensures
        key_wd_find(w, 0) == keyword_kind(w),
{
    assert forall|i: int| 0 <= i < 21 implies (#[trigger] key_wd_val(i)) != w by {
        if key_wd_val(i).len() > 0 {
            assert(key_wd_val(i)[0] != w[0]);
        }
    }
    reveal_with_fuel(key_wd_find, 26);
}

} // verus!
