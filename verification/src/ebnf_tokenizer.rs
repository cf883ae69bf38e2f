//! Splits the text of a grammar into tokens.

use vstd::prelude::*;
use vstd::string::*;

use crate::lexis;
use crate::reading;
use crate::text;

verus! {

/// White space between tokens.
pub open spec fn blank(c: char) -> bool {
    c == ' ' || c == '\t' || c == '\n' || c == '\r'
}

/// A quotation mark.
pub open spec fn quote(c: char) -> bool {
    c == '\'' || c == '"'
}

/// The first place, from `i` on, where the mark `q` stands, or the end.
pub open spec fn quote_end(s: Seq<char>, i: int, q: char) -> int
    decreases s.len() - i,
{
    if i >= s.len() || s[i] == q {
        i
    } else {
        quote_end(s, i + 1, q)
    }
}

/// The first place, from `i` on, that cannot stand in a name.
pub open spec fn name_end(s: Seq<char>, i: int) -> int
    decreases s.len() - i,
{
    if i >= s.len() || !lexis::name_part(s[i]) {
        i
    } else {
        name_end(s, i + 1)
    }
}

/// The first place, from `i` on, that is not a digit.
pub open spec fn digits_end(s: Seq<char>, i: int) -> int
    decreases s.len() - i,
{
    if i >= s.len() || !lexis::ascii_digit(s[i]) {
        i
    } else {
        digits_end(s, i + 1)
    }
}

/// Where the token that starts at `i` ends: a name, a name behind an at sign, a numeral,
/// `:=`, or any other character by itself.
pub open spec fn token_end(s: Seq<char>, i: int) -> int {
    let c = s[i];
    if c == '@' || lexis::alphabetic(c) {
        name_end(s, i + 1)
    } else if lexis::ascii_digit(c) {
        digits_end(s, i + 1)
    } else if c == ':' && i + 1 < s.len() && s[i + 1] == '=' {
        i + 2
    } else {
        i + 1
    }
}

/// The tokens of the text from `i` on. Quoted text is a token between two tokens for the
/// marks; where there is none between the marks, or no closing mark, that token is left out.
pub open spec fn tokens_from(s: Seq<char>, i: int) -> Seq<Seq<char>>
    decreases s.len() - i,
    when 0 <= i
    via tokens_from_decreases
{
    if i >= s.len() {
        Seq::empty()
    } else if blank(s[i]) {
        tokens_from(s, i + 1)
    } else if quote(s[i]) {
        let j = quote_end(s, i + 1, s[i]);
        seq![seq![s[i]]] + (if j > i + 1 {
            seq![s.subrange(i + 1, j)]
        } else {
            Seq::empty()
        }) + (if j < s.len() {
            seq![seq![s[i]]] + tokens_from(s, j + 1)
        } else {
            Seq::empty()
        })
    } else {
        let j = token_end(s, i);
        seq![s.subrange(i, j)] + tokens_from(s, j)
    }
}

#[via_fn]
proof fn tokens_from_decreases(s: Seq<char>, i: int) {
    if i < s.len() {
        lemma_quote_end(s, i + 1, s[i]);
        lemma_token_end(s, i);
    }
}

/// The tokens of a text.
pub open spec fn tokens_of(s: Seq<char>) -> Seq<Seq<char>> {
    tokens_from(s, 0)
}

proof fn lemma_quote_end(s: Seq<char>, i: int, q: char)
    requires
        0 <= i <= s.len(),
    ensures
        i <= quote_end(s, i, q) <= s.len(),
        quote_end(s, i, q) < s.len() ==> s[quote_end(s, i, q)] == q,
    decreases s.len() - i,
{
    if i < s.len() && s[i] != q {
        lemma_quote_end(s, i + 1, q);
    }
}

proof fn lemma_name_end(s: Seq<char>, i: int)
    requires
        0 <= i <= s.len(),
    ensures
        i <= name_end(s, i) <= s.len(),
    decreases s.len() - i,
{
    if i < s.len() && lexis::name_part(s[i]) {
        lemma_name_end(s, i + 1);
    }
}

proof fn lemma_digits_end(s: Seq<char>, i: int)
    requires
        0 <= i <= s.len(),
    ensures
        i <= digits_end(s, i) <= s.len(),
    decreases s.len() - i,
{
    if i < s.len() && lexis::ascii_digit(s[i]) {
        lemma_digits_end(s, i + 1);
    }
}

proof fn lemma_token_end(s: Seq<char>, i: int)
    requires
        0 <= i < s.len(),
    ensures
        i < token_end(s, i) <= s.len(),
{
    lemma_name_end(s, i + 1);
    lemma_digits_end(s, i + 1);
}

/// No token of a text is empty.
pub proof fn law_tokens_are_solid(s: Seq<char>, i: int)
    requires
        0 <= i,
    ensures
        reading::solid(tokens_from(s, i)),
    decreases s.len() - i,
{
    let all = tokens_from(s, i);
    if i >= s.len() {
    } else if blank(s[i]) {
        law_tokens_are_solid(s, i + 1);
    } else if quote(s[i]) {
        let j = quote_end(s, i + 1, s[i]);
        lemma_quote_end(s, i + 1, s[i]);
        if j < s.len() {
            law_tokens_are_solid(s, j + 1);
        }
        let rest = tokens_from(s, j + 1);
        let text: Seq<Seq<char>> = if j > i + 1 {
            seq![s.subrange(i + 1, j)]
        } else {
            Seq::empty()
        };
        assert forall|k: int| 0 <= k < all.len() implies (#[trigger] all[k]).len() > 0 by {
            if k > text.len() + 1 {
                assert(all[k] == rest[k - text.len() - 2]);
            }
        }
    } else {
        let j = token_end(s, i);
        lemma_token_end(s, i);
        law_tokens_are_solid(s, j);
        let rest = tokens_from(s, j);
        assert forall|k: int| 0 <= k < all.len() implies (#[trigger] all[k]).len() > 0 by {
            if k > 0 {
                assert(all[k] == rest[k - 1]);
            }
        }
    }
}

/// Where quoted text ends.
fn find_quote(s: &Vec<char>, i: usize, q: char) -> (j: usize)
    requires
        i <= s@.len(),
    ensures
        j == quote_end(s@, i as int, q),
        i <= j <= s@.len(),
{
    let mut j = i;
    while j < s.len() && s[j] != q
        invariant
            i <= j <= s@.len(),
            quote_end(s@, i as int, q) == quote_end(s@, j as int, q),
        decreases s.len() - j,
    {
        j = j + 1;
    }
    j
}

/// Where the token that starts at `i` ends.
fn find_end(s: &Vec<char>, i: usize) -> (j: usize)
    requires
        i < s.len(),
    ensures
        j == token_end(s@, i as int),
        i < j <= s@.len(),
{
    let c = s[i];
    let mut j = i + 1;
    if c == '@' || lexis::is_alphabetic(c) {
        while j < s.len() && (lexis::is_alphanumeric(s[j]) || s[j] == '_')
            invariant
                i < j <= s@.len(),
                name_end(s@, i + 1) == name_end(s@, j as int),
            decreases s.len() - j,
        {
            j = j + 1;
        }
    } else if lexis::is_ascii_digit(c) {
        while j < s.len() && lexis::is_ascii_digit(s[j])
            invariant
                i < j <= s@.len(),
                digits_end(s@, i + 1) == digits_end(s@, j as int),
            decreases s.len() - j,
        {
            j = j + 1;
        }
    } else if c == ':' && j < s.len() && s[j] == '=' {
        j = j + 1;
    }
    j
}

/// Splits a text into tokens.
pub fn tokenize(source: &str) -> (tokens: Vec<String>)
    ensures
        text::views(tokens@) == tokens_of(source@),
        reading::solid(text::views(tokens@)),
{
    let s = lexis::chars_of(source);
    let mut tokens: Vec<String> = Vec::new();
    let mut i: usize = 0;
    proof {
        law_tokens_are_solid(source@, 0);
        assert(text::views(tokens@) + tokens_from(s@, 0) =~= tokens_of(source@));
    }
    while i < s.len()
        invariant
            s@ == source@,
            i <= s@.len(),
            text::views(tokens@) + tokens_from(s@, i as int) == tokens_of(source@),
        decreases s.len() - i,
    {
        let ghost before = text::views(tokens@);
        let c = s[i];
        if c == ' ' || c == '\t' || c == '\n' || c == '\r' {
            i = i + 1;
        } else if c == '\'' || c == '"' {
            let j = find_quote(&s, i + 1, c);
            let mark = source.substring_char(i, i + 1).to_owned();
            let ghost all = tokens_from(s@, i as int);
            proof {
                assert(mark@ =~= seq![c]);
            }
            tokens.push(mark);
            proof {
                assert(text::views(tokens@) =~= before.push(seq![c]));
            }
            if j > i + 1 {
                let ghost so_far = text::views(tokens@);
                tokens.push(source.substring_char(i + 1, j).to_owned());
                proof {
                    assert(text::views(tokens@) =~= so_far.push(s@.subrange(i + 1, j as int)));
                }
            }
            if j < s.len() {
                let ghost so_far = text::views(tokens@);
                let closing = source.substring_char(j, j + 1).to_owned();
                proof {
                    lemma_quote_end(s@, i + 1, c);
                    assert(closing@ =~= seq![c]);
                }
                tokens.push(closing);
                proof {
                    assert(text::views(tokens@) =~= so_far.push(seq![c]));
                    assert(text::views(tokens@) + tokens_from(s@, j + 1) =~= before + all);
                }
                i = j + 1;
            } else {
                proof {
                    assert(text::views(tokens@) =~= before + all);
                    assert(tokens_from(s@, j as int) =~= Seq::empty());
                    assert(text::views(tokens@) + tokens_from(s@, j as int) =~= before + all);
                }
                i = j;
            }
        } else {
            let j = find_end(&s, i);
            tokens.push(source.substring_char(i, j).to_owned());
            proof {
                let token = s@.subrange(i as int, j as int);
                assert(text::views(tokens@) =~= before.push(token));
                assert(text::views(tokens@) + tokens_from(s@, j as int) =~= before + tokens_from(
                    s@,
                    i as int,
                ));
            }
            i = j;
        }
    }
    proof {
        assert(text::views(tokens@) + Seq::<Seq<char>>::empty() =~= text::views(tokens@));
    }
    tokens
}

} // verus!
