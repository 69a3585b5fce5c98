use nyaan::token::{key_wd_tbl, Ch, Kind, LexError, Token};
use nyaan::tokenizer::{init_ch_type, tokenize, tokenize_chars};

fn kinds(src: &str) -> Vec<Kind> {
    tokenize(&mut src.chars()).unwrap().iter().map(|t| t.kind).collect()
}

#[test]
fn empty_source_is_one_end_token() {
    assert_eq!(kinds(""), vec![Kind::Endlist]);
    assert_eq!(kinds("  \n "), vec![Kind::Endlist]);
}

#[test]
fn assignment_statement_kinds() {
    assert_eq!(
        kinds("a = 1 + 2 * 3;"),
        vec![
            Kind::Ident,
            Kind::Assign,
            Kind::Int,
            Kind::Plus,
            Kind::Int,
            Kind::Multi,
            Kind::Int,
            Kind::Semicolon,
            Kind::Endlist
        ]
    );
}

#[test]
fn tokens_need_no_blanks_between_them() {
    assert_eq!(kinds("a=1+2*3;"), kinds("a = 1 + 2 * 3 ;"));
    assert_eq!(kinds("if(a==b){print(a);}"), kinds(" if ( a == b ) { print ( a ) ; } "));
}

#[test]
fn integer_literal_value() {
    let ts = tokenize(&mut "2147483647".chars()).unwrap();
    assert_eq!(ts[0].kind, Kind::Int);
    assert_eq!(ts[0].val, 2147483647);
    assert_eq!(ts[0].text, "");
    assert_eq!(tokenize(&mut "007".chars()).unwrap()[0].val, 7);
    assert_eq!(tokenize(&mut "12 34".chars()).unwrap()[1].val, 34);
}

#[test]
fn integer_literal_too_large() {
    assert_eq!(tokenize(&mut "2147483648".chars()), Err(LexError::IntegerTooLarge));
    assert_eq!(
        tokenize(&mut "a = 99999999999999999999999999;".chars()),
        Err(LexError::IntegerTooLarge)
    );
}

#[test]
fn digit_followed_by_letter_is_an_error() {
    assert_eq!(tokenize(&mut "12ab".chars()), Err(LexError::DigitFollowedByLetter));
    assert_eq!(tokenize(&mut "1_".chars()), Err(LexError::DigitFollowedByLetter));
    assert_eq!(
        tokenize(&mut "99999999999999999999x".chars()),
        Err(LexError::DigitFollowedByLetter)
    );
}

#[test]
fn character_literal() {
    let ts = tokenize(&mut "a='x';".chars()).unwrap();
    assert_eq!(ts[2].kind, Kind::Char);
    assert_eq!(ts[2].chr, 'x');
    assert_eq!(ts[3].kind, Kind::Semicolon);
    let ts = tokenize(&mut "'''".chars()).unwrap();
    assert_eq!(ts[0].chr, '\'');
    assert_eq!(ts.len(), 2);
}

#[test]
fn unterminated_character_literal() {
    assert_eq!(tokenize(&mut "'x".chars()), Err(LexError::UnterminatedChar));
    assert_eq!(tokenize(&mut "'".chars()), Err(LexError::UnterminatedChar));
    assert_eq!(tokenize(&mut "'xy'".chars()), Err(LexError::UnterminatedChar));
    assert_eq!(tokenize(&mut "''".chars()), Err(LexError::UnterminatedChar));
}

#[test]
fn string_literal_is_raw_text() {
    let ts = tokenize(&mut "print(\"hi there\\n\");".chars()).unwrap();
    assert_eq!(ts[2].kind, Kind::Str);
    assert_eq!(ts[2].text, "hi there\\n");
    assert_eq!(ts[3].kind, Kind::Rparen);
    let ts = tokenize(&mut "\"\"".chars()).unwrap();
    assert_eq!(ts[0].kind, Kind::Str);
    assert_eq!(ts[0].text, "");
}

#[test]
fn unterminated_string_literal() {
    assert_eq!(tokenize(&mut "\"abc".chars()), Err(LexError::UnterminatedString));
    assert_eq!(tokenize(&mut "\"".chars()), Err(LexError::UnterminatedString));
}

#[test]
fn two_character_operators() {
    assert_eq!(
        kinds("== != <= >= +="),
        vec![
            Kind::Equal,
            Kind::NotEq,
            Kind::LessEq,
            Kind::GreaterEq,
            Kind::Addasgn,
            Kind::Endlist
        ]
    );
    assert_eq!(kinds("= + < >"), vec![Kind::Assign, Kind::Plus, Kind::Less, Kind::Greater, Kind::Endlist]);
    assert_eq!(kinds("==="), vec![Kind::Equal, Kind::Assign, Kind::Endlist]);
    assert_eq!(kinds("!"), vec![Kind::Others, Kind::Endlist]);
}

#[test]
fn minus_star_slash_take_no_lookahead() {
    assert_eq!(kinds("-="), vec![Kind::Minus, Kind::Assign, Kind::Endlist]);
    assert_eq!(kinds("*="), vec![Kind::Multi, Kind::Assign, Kind::Endlist]);
    assert_eq!(kinds("/="), vec![Kind::Divi, Kind::Assign, Kind::Endlist]);
}

#[test]
fn keywords_and_identifiers() {
    let ts = tokenize(&mut "if else print nyaan iff _x9 Print".chars()).unwrap();
    let ks: Vec<Kind> = ts.iter().map(|t| t.kind).collect();
    assert_eq!(
        ks,
        vec![
            Kind::If,
            Kind::Else,
            Kind::Print,
            Kind::Nyaan,
            Kind::Ident,
            Kind::Ident,
            Kind::Ident,
            Kind::Endlist
        ]
    );
    assert_eq!(ts[0].text, "if");
    assert_eq!(ts[4].text, "iff");
    assert_eq!(ts[5].text, "_x9");
}

#[test]
fn unrecognized_characters_are_others() {
    assert_eq!(kinds("a # b"), vec![Kind::Ident, Kind::Others, Kind::Ident, Kind::Endlist]);
    assert_eq!(kinds("\t"), vec![Kind::Others, Kind::Endlist]);
    assert_eq!(kinds("é"), vec![Kind::Others, Kind::Endlist]);
    assert_eq!(kinds("\u{0}"), vec![Kind::Others, Kind::Endlist]);
}

#[test]
fn punctuation_kinds() {
    assert_eq!(
        kinds("(){};-*/"),
        vec![
            Kind::Lparen,
            Kind::Rparen,
            Kind::Lbrace,
            Kind::Rbrace,
            Kind::Semicolon,
            Kind::Minus,
            Kind::Multi,
            Kind::Divi,
            Kind::Endlist
        ]
    );
}

#[test]
fn blank_token_is_others() {
    let t = Token::new();
    assert_eq!(t.kind, Kind::Others);
    assert_eq!(t.text, "");
    assert_eq!(t.chr, ' ');
    assert_eq!(t.val, 0);
}

#[test]
fn character_class_table() {
    let t = init_ch_type();
    assert_eq!(t.len(), 256);
    assert_eq!(t['0' as usize], Ch::Digit);
    assert_eq!(t['9' as usize], Ch::Digit);
    assert_eq!(t['A' as usize], Ch::Letter);
    assert_eq!(t['z' as usize], Ch::Letter);
    assert_eq!(t['_' as usize], Ch::Letter);
    assert_eq!(t['=' as usize], Ch::Assign);
    assert_eq!(t['!' as usize], Ch::Exclam);
    assert_eq!(t['\'' as usize], Ch::SngQ);
    assert_eq!(t['"' as usize], Ch::DblQ);
    assert_eq!(t[' ' as usize], Ch::Others);
    assert_eq!(t['@' as usize], Ch::Others);
    assert_eq!(t[255], Ch::Others);
    let letters = t.iter().filter(|c| **c == Ch::Letter).count();
    assert_eq!(letters, 53);
    let digits = t.iter().filter(|c| **c == Ch::Digit).count();
    assert_eq!(digits, 10);
}

#[test]
fn keyword_table_entries() {
    let t = key_wd_tbl();
    assert_eq!(t.len(), 25);
    assert_eq!(t[0].val, "(");
    assert_eq!(t[0].kind, Kind::Lparen);
    assert_eq!(t[8].val, "==");
    assert_eq!(t[8].kind, Kind::Equal);
    assert_eq!(t[20].val, "");
    assert_eq!(t[20].kind, Kind::Endlist);
    assert_eq!(t[23].val, "print");
    assert_eq!(t[23].kind, Kind::Print);
}

#[test]
fn token_spellings() {
    let ts = tokenize(&mut "a1=007+'x'-\"s t\";if else==".chars()).unwrap();
    let spelled: Vec<String> = ts.iter().map(|t| t.lexeme()).collect();
    assert_eq!(
        spelled,
        vec!["a1", "=", "7", "+", "'x'", "-", "\"s t\"", ";", "if", "else", "==", ""]
    );
    let mut negative = Token::new();
    negative.kind = Kind::Int;
    negative.val = -2147483648;
    assert_eq!(negative.lexeme(), "-2147483648");
    negative.val = 2147483647;
    assert_eq!(negative.lexeme(), "2147483647");
    negative.val = 0;
    assert_eq!(negative.lexeme(), "0");
}

#[test]
fn joined_spellings() {
    let ts = tokenize(&mut "a=1;print(a);".chars()).unwrap();
    assert_eq!(nyaan::spelling::join_tokens(&ts), "a = 1 ; print ( a ) ; ");
    assert_eq!(nyaan::spelling::join_tokens(&Vec::new()), "");
    assert_eq!(nyaan::spelling::join_tokens(&tokenize(&mut "".chars()).unwrap()), "");
}

#[test]
fn spacing_does_not_matter() {
    let sources = [
        "a=1+2*3;print(a);",
        "if(a==1){print(\"one\");}else if(a<=2){b='c';}else{print(0);}",
        "  x \n =\n  12345   ;",
        "a != b >= c += d < e > f",
        "\"a  b\" 'q' ' ' '\"' nyaan",
        "",
    ];
    for src in sources {
        let first = tokenize(&mut src.chars()).unwrap();
        let text = nyaan::spelling::join_tokens(&first);
        let second = tokenize(&mut text.chars()).unwrap();
        assert_eq!(first, second);
    }
}

#[test]
fn spacing_matters_where_a_character_is_not_recognized() {
    let first = tokenize(&mut "a # b".chars()).unwrap();
    let text = nyaan::spelling::join_tokens(&first);
    assert_eq!(text, "a  b ");
    let second = tokenize(&mut text.chars()).unwrap();
    assert_eq!(first.len(), 4);
    assert_eq!(second.len(), 3);
}

#[test]
fn characters_in_a_vector() {
    let text: Vec<char> = "a = 'b';".chars().collect();
    assert_eq!(tokenize_chars(&text), tokenize(&mut "a = 'b';".chars()));
    assert_eq!(tokenize_chars(&vec!['"']), Err(LexError::UnterminatedString));
}

#[test]
fn reader_is_left_at_its_end() {
    let mut reader = "a b".chars();
    tokenize(&mut reader).unwrap();
    assert_eq!(reader.next(), None);
    let mut broken = "'a b c".chars();
    assert_eq!(tokenize(&mut broken), Err(LexError::UnterminatedChar));
    assert_eq!(broken.next(), None);
}

#[test]
fn blanks_between_tokens_change_nothing() {
    let plain = tokenize(&mut "a=1+2;print(a);if(a==3){b='c';}".chars()).unwrap();
    let spread = "  a\n =  1 +\n\n2 ;\nprint ( a )  ; if  ( a  ==  3 ) \n{ b = 'c' ; }\n";
    assert_eq!(tokenize(&mut spread.chars()).unwrap(), plain);
    let one_more = tokenize(&mut "a =1+2;print(a);if(a==3){b='c';}".chars()).unwrap();
    assert_eq!(one_more, plain);
    let with_unknown = tokenize(&mut "a#b".chars()).unwrap();
    assert_eq!(tokenize(&mut "a # \n b".chars()).unwrap(), with_unknown);
}

#[test]
fn a_blank_inside_a_token_changes_it() {
    assert_ne!(
        tokenize(&mut "a b".chars()).unwrap(),
        tokenize(&mut "ab".chars()).unwrap()
    );
    assert_ne!(
        tokenize(&mut "= =".chars()).unwrap(),
        tokenize(&mut "==".chars()).unwrap()
    );
}
