//! Blanks between tokens do not matter: a space or a newline more or less
//! between two tokens of a text leaves the tokens as they are.
use vstd::prelude::*;
use crate::token::{Ch, Kind, LexError, TokenView};
use crate::tokenizer::{Run, class_of, in_run, lemma_run_end, lex, lex_from, opens_pair, run_end};
use crate::tokenizer::{scan_at, scan_from};
use crate::spelling::{lemma_run_exact, lemma_scan_at};

verus! {

/// The text `s` with the character `c` put in before index `q`.
pub open spec fn with_char_at(s: Seq<char>, q: int, c: char) -> Seq<char> {
    s.subrange(0, q) + seq![c] + s.subrange(q, s.len() as int)
}

/// Whether index `q` of the text lies between two tokens, for a tokenizer
/// that stands at index `p` before a token: at `p` itself or in the blanks
/// behind it, or between two tokens further on. The end of the last token
/// and the start of the first count as well.
pub open spec fn between_tokens(s: Seq<char>, p: int, q: int) -> bool
    decreases s.len() - p,
{
    ||| p <= q <= run_end(s, p, Run::Blank)
    ||| match scan_from(s, p) {
        Ok((t, e)) => t.kind != Kind::Endlist && p < e <= s.len() && between_tokens(s, e, q),
        Err(_) => false,
    }
}

/// Whether `a` is the text `s` with the blank `c` put in before index `q`.
pub open spec fn blank_put_in(s: Seq<char>, a: Seq<char>, q: int, c: char) -> bool {
    &&& 0 <= q <= s.len()
    &&& a.len() == s.len() + 1
    &&& in_run(Run::Blank, c)
    &&& a[q] == c
    &&& forall|k: int| 0 <= k < q ==> #[trigger] a[k] == s[k]
    &&& forall|k: int| q <= k < s.len() ==> a[k + 1] == #[trigger] s[k]
}

/// The outcome of scanning a token, one index further on.
pub open spec fn one_on(r: Result<(TokenView, int), LexError>) -> Result<(TokenView, int), LexError> {
    match r {
        Ok((t, e)) => Ok((t, e + 1)),
        Err(err) => Err(err),
    }
}

/// Behind the blank that was put in, a run ends one index further on.
proof fn lemma_run_behind(s: Seq<char>, a: Seq<char>, q: int, c: char, p: int, r: Run)
    requires
        blank_put_in(s, a, q, c),
        q <= p <= s.len(),
    ensures
        run_end(a, p + 1, r) == run_end(s, p, r) + 1,
    decreases s.len() - p,
{
    if p < s.len() {
        assert(a[p + 1] == s[p]);
        if in_run(r, s[p]) {
            lemma_run_behind(s, a, q, c, p + 1, r);
        }
    }
}

/// Behind the blank that was put in, the same token is scanned one index
/// further on.
proof fn lemma_scan_behind(s: Seq<char>, a: Seq<char>, q: int, c: char, i: int)
    requires
        blank_put_in(s, a, q, c),
        q <= i < s.len(),
    ensures
        scan_at(a, i + 1) == one_on(scan_at(s, i)),
{
    assert(a[i + 1] == s[i]);
    let k = class_of(s[i]);
    lemma_run_behind(s, a, q, c, i, Run::Word);
    lemma_run_behind(s, a, q, c, i, Run::Digits);
    lemma_run_behind(s, a, q, c, i + 1, Run::Text);
    lemma_run_end(s, i, Run::Word);
    lemma_run_end(s, i, Run::Digits);
    lemma_run_end(s, i + 1, Run::Text);
    if k == Ch::Letter {
        let j = run_end(s, i, Run::Word);
        assert(a.subrange(i + 1, j + 1) =~= s.subrange(i, j));
    } else if k == Ch::Digit {
        let j = run_end(s, i, Run::Digits);
        assert(a.subrange(i + 1, j + 1) =~= s.subrange(i, j));
        if j < s.len() {
            assert(a[j + 1] == s[j]);
        }
    } else if k == Ch::SngQ {
        if i + 2 < s.len() {
            assert(a[i + 2] == s[i + 1]);
            assert(a[i + 3] == s[i + 2]);
        }
    } else if k == Ch::DblQ {
        let j = run_end(s, i + 1, Run::Text);
        assert(a.subrange(i + 2, j + 1) =~= s.subrange(i + 1, j));
    } else {
        if i + 1 < s.len() {
            assert(a[i + 2] == s[i + 1]);
        }
    }
}

/// Behind the blank that was put in, the tokens are the same.
proof fn lemma_lex_behind(s: Seq<char>, a: Seq<char>, q: int, c: char, p: int)
    requires
        blank_put_in(s, a, q, c),
        q <= p <= s.len(),
    ensures
        lex_from(a, p + 1) == lex_from(s, p),
    decreases s.len() - p,
{
    let i = run_end(s, p, Run::Blank);
    lemma_run_end(s, p, Run::Blank);
    lemma_run_behind(s, a, q, c, p, Run::Blank);
    if i < s.len() {
        lemma_scan_behind(s, a, q, c, i);
        match scan_at(s, i) {
            Ok((t, e)) => {
                lemma_scan_at(s, i);
                lemma_lex_behind(s, a, q, c, e);
            },
            Err(_) => {},
        }
    }
}

/// Before the blank that was put in, a token that ends there at the latest
/// is scanned as before.
proof fn lemma_scan_before(s: Seq<char>, a: Seq<char>, q: int, c: char, i: int)
    requires
        blank_put_in(s, a, q, c),
        0 <= i < s.len(),
        scan_at(s, i) is Ok,
        scan_at(s, i).unwrap().1 <= q,
    ensures
        scan_at(a, i) == scan_at(s, i),
{
    let (t, e) = scan_at(s, i).unwrap();
    lemma_scan_at(s, i);
    assert(a[i] == s[i]);
    let k = class_of(s[i]);
    if k == Ch::Letter {
        lemma_run_end(s, i, Run::Word);
        assert forall|x: int| i <= x < e implies in_run(Run::Word, #[trigger] a[x]) by {
            assert(a[x] == s[x]);
        }
        if e < q {
            assert(a[e] == s[e]);
        }
        lemma_run_exact(a, i, e, Run::Word);
        assert(a.subrange(i, e) =~= s.subrange(i, e));
    } else if k == Ch::Digit {
        lemma_run_end(s, i, Run::Digits);
        assert forall|x: int| i <= x < e implies in_run(Run::Digits, #[trigger] a[x]) by {
            assert(a[x] == s[x]);
        }
        if e < q {
            assert(a[e] == s[e]);
        }
        lemma_run_exact(a, i, e, Run::Digits);
        assert(a.subrange(i, e) =~= s.subrange(i, e));
    } else if k == Ch::SngQ {
        assert(a[i + 1] == s[i + 1]);
        assert(a[i + 2] == s[i + 2]);
    } else if k == Ch::DblQ {
        let j = run_end(s, i + 1, Run::Text);
        lemma_run_end(s, i + 1, Run::Text);
        assert forall|x: int| i + 1 <= x < j implies in_run(Run::Text, #[trigger] a[x]) by {
            assert(a[x] == s[x]);
        }
        assert(a[j] == s[j]);
        lemma_run_exact(a, i + 1, j, Run::Text);
        assert(a.subrange(i + 1, j) =~= s.subrange(i + 1, j));
    } else if opens_pair(k) && i + 1 < s.len() && s[i + 1] == '=' {
        assert(a[i + 1] == s[i + 1]);
    } else {
        if i + 1 < q {
            assert(a[i + 1] == s[i + 1]);
        }
    }
}

/// An index between two tokens is not before the index at which the
/// tokenizer stands.
proof fn lemma_between_is_ahead(s: Seq<char>, p: int, q: int)
    requires
        between_tokens(s, p, q),
    ensures
        p <= q,
    decreases s.len() - p,
{
    if !(p <= q <= run_end(s, p, Run::Blank)) {
        let (t, e) = scan_from(s, p).unwrap();
        lemma_between_is_ahead(s, e, q);
    }
}

/// Through the blanks in which the blank was put, the run of blanks is one
/// longer.
proof fn lemma_blanks_through(s: Seq<char>, a: Seq<char>, q: int, c: char, p: int)
    requires
        blank_put_in(s, a, q, c),
        0 <= p <= q <= run_end(s, p, Run::Blank),
    ensures
        run_end(a, p, Run::Blank) == run_end(s, p, Run::Blank) + 1,
    decreases q - p,
{
    if p < q {
        assert(a[p] == s[p]);
        lemma_blanks_through(s, a, q, c, p + 1);
    } else {
        lemma_run_behind(s, a, q, c, q, Run::Blank);
    }
}

/// From an index at which the tokenizer stands, with the blank put in
/// between two tokens ahead, the tokens are the same.
proof fn lemma_lex_with_blank(s: Seq<char>, a: Seq<char>, q: int, c: char, p: int)
    requires
        blank_put_in(s, a, q, c),
        0 <= p,
        between_tokens(s, p, q),
    ensures
        lex_from(a, p) == lex_from(s, p),
    decreases s.len() - p,
{
    let i = run_end(s, p, Run::Blank);
    lemma_between_is_ahead(s, p, q);
    lemma_run_end(s, p, Run::Blank);
    if p <= q <= i {
        lemma_blanks_through(s, a, q, c, p);
        if i < s.len() {
            lemma_scan_behind(s, a, q, c, i);
            match scan_at(s, i) {
                Ok((t, e)) => {
                    lemma_scan_at(s, i);
                    lemma_lex_behind(s, a, q, c, e);
                },
                Err(_) => {},
            }
        }
    } else {
        let (t, e) = scan_from(s, p).unwrap();
        lemma_between_is_ahead(s, e, q);
        lemma_scan_at(s, i);
        assert forall|x: int| p <= x < i implies in_run(Run::Blank, #[trigger] a[x]) by {
            assert(a[x] == s[x]);
        }
        assert(a[i] == s[i]);
        lemma_run_exact(a, p, i, Run::Blank);
        lemma_scan_before(s, a, q, c, i);
        lemma_lex_with_blank(s, a, q, c, e);
    }
}

/// A blank more or less between two tokens changes nothing. Where index
/// `q` of the text `s` lies between two tokens (or before the first, or
/// behind the last), the text with a space or a newline put in there is
/// split into the same tokens as `s`, or fails with the same error. Read
/// the other way, a blank may be taken out wherever what is left still
/// has an end of a token at that place. Step by step, this gives every
/// respacing of a text that leaves its literals whole and joins no two
/// tokens.
pub proof fn lemma_blank_between_tokens(s: Seq<char>, q: int, c: char)
    requires
        0 <= q <= s.len(),
        c == ' ' || c == '\n',
        between_tokens(s, 0, q),
    ensures
        lex(with_char_at(s, q, c)) == lex(s),
{
    let a = with_char_at(s, q, c);
    assert(blank_put_in(s, a, q, c));
    lemma_lex_with_blank(s, a, q, c, 0);
}

} // verus!
