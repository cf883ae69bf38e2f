//! Texts are split into the tokens that they were written with.

use vstd::prelude::*;

use crate::ebnf_tokenizer;
use crate::ebnf_tokenizer::{blank, quote};
use crate::lexis;

verus! {

/// A token as it is written, with the white space behind it. Quoted text stands between two marks.
pub struct Lexeme {
    pub text: Seq<char>,
    pub mark: Option<char>,
    pub gap: Seq<char>,
}

/// A name, or a name behind an at sign.
pub open spec fn is_word(t: Seq<char>) -> bool {
    &&& t.len() > 0
    &&& lexis::alphabetic(t[0]) || t[0] == '@'
    &&& forall|k: int| 0 < k < t.len() ==> lexis::name_part(#[trigger] t[k])
}

/// A numeral.
pub open spec fn is_number(t: Seq<char>) -> bool {
    &&& t.len() > 0
    &&& forall|k: int| 0 <= k < t.len() ==> '0' <= #[trigger] t[k] <= '9'
}

/// Any other character by itself.
pub open spec fn is_sign(t: Seq<char>) -> bool {
    &&& t.len() == 1
    &&& t[0] != ' ' && t[0] != '\t' && t[0] != '\n' && t[0] != '\r'
    &&& t[0] != '\'' && t[0] != '"' && t[0] != '@'
    &&& !lexis::alphabetic(t[0])
    &&& !('0' <= t[0] <= '9')
}

/// White space only.
pub open spec fn is_gap(t: Seq<char>) -> bool {
    forall|k: int|
        0 <= k < t.len() ==> #[trigger] t[k] == ' ' || t[k] == '\t' || t[k] == '\n' || t[k] == '\r'
}

impl Lexeme {
    /// It is a word, a numeral, `:=`, any other character by itself, or quoted text without the
    /// mark that it is quoted with.
    pub open spec fn proper(self) -> bool {
        &&& is_gap(self.gap)
        &&& match self.mark {
            Some(q) => {
                &&& q == '\'' || q == '"'
                &&& forall|k: int| 0 <= k < self.text.len() ==> #[trigger] self.text[k] != q
            },
            None => is_word(self.text) || is_number(self.text) || self.text == seq![':', '=']
                || is_sign(self.text),
        }
    }

    /// What stands in the text.
    pub open spec fn written(self) -> Seq<char> {
        match self.mark {
            Some(q) => seq![q] + self.text + seq![q] + self.gap,
            None => self.text + self.gap,
        }
    }

    /// Its tokens: where there is nothing between two marks, there is no token for it.
    pub open spec fn tokens(self) -> Seq<Seq<char>> {
        match self.mark {
            Some(q) => if self.text.len() > 0 {
                seq![seq![q], self.text, seq![q]]
            } else {
                seq![seq![q], seq![q]]
            },
            None => seq![self.text],
        }
    }

    /// The character, right behind it, would go on with it.
    pub open spec fn goes_on(self, c: char) -> bool {
        &&& self.mark is None
        &&& self.gap.len() == 0
        &&& is_word(self.text) && lexis::name_part(c) || is_number(self.text) && '0' <= c <= '9'
            || self.text == seq![':'] && c == '='
    }
}

/// What a list of lexemes is written as.
pub open spec fn written_all(list: Seq<Lexeme>) -> Seq<char>
    decreases list.len(),
{
    if list.len() == 0 {
        Seq::empty()
    } else {
        list[0].written() + written_all(list.drop_first())
    }
}

/// The tokens of a list of lexemes.
pub open spec fn tokens_all(list: Seq<Lexeme>) -> Seq<Seq<char>>
    decreases list.len(),
{
    if list.len() == 0 {
        Seq::empty()
    } else {
        list[0].tokens() + tokens_all(list.drop_first())
    }
}

/// Each is proper, and none goes on with the next one.
pub open spec fn apart(list: Seq<Lexeme>) -> bool {
    &&& forall|k: int| 0 <= k < list.len() ==> (#[trigger] list[k]).proper()
    &&& forall|k: int|
        0 <= k < list.len() - 1 ==> !(#[trigger] list[k]).goes_on(list[k + 1].written()[0])
}

/// White space gives no tokens.
proof fn lemma_gap(s: Seq<char>, i: int, j: int)
    requires
        0 <= i <= j <= s.len(),
        forall|k: int| i <= k < j ==> blank(#[trigger] s[k]),
    ensures
        ebnf_tokenizer::tokens_from(s, i) == ebnf_tokenizer::tokens_from(s, j),
    decreases j - i,
{
    if i < j {
        lemma_gap(s, i + 1, j);
        assert(blank(s[i]));
    }
}

proof fn lemma_name_end(s: Seq<char>, i: int, j: int)
    requires
        0 <= i <= j <= s.len(),
        forall|k: int| i <= k < j ==> lexis::name_part(#[trigger] s[k]),
        j < s.len() ==> !lexis::name_part(s[j]),
    ensures
        ebnf_tokenizer::name_end(s, i) == j,
    decreases j - i,
{
    if i < j {
        assert(lexis::name_part(s[i]));
        lemma_name_end(s, i + 1, j);
    }
}

proof fn lemma_digits_end(s: Seq<char>, i: int, j: int)
    requires
        0 <= i <= j <= s.len(),
        forall|k: int| i <= k < j ==> lexis::ascii_digit(#[trigger] s[k]),
        j < s.len() ==> !lexis::ascii_digit(s[j]),
    ensures
        ebnf_tokenizer::digits_end(s, i) == j,
    decreases j - i,
{
    if i < j {
        assert(lexis::ascii_digit(s[i]));
        lemma_digits_end(s, i + 1, j);
    }
}

proof fn lemma_quote_end(s: Seq<char>, i: int, j: int, q: char)
    requires
        0 <= i <= j < s.len(),
        forall|k: int| i <= k < j ==> #[trigger] s[k] != q,
        s[j] == q,
    ensures
        ebnf_tokenizer::quote_end(s, i, q) == j,
    decreases j - i,
{
    if i < j {
        assert(s[i] != q);
        lemma_quote_end(s, i + 1, j, q);
    }
}

/// A lexeme that stands at `i` gives its tokens.
proof fn lemma_lexeme(s: Seq<char>, i: int, x: Lexeme)
    requires
        0 <= i,
        x.proper(),
        i + x.written().len() <= s.len(),
        forall|k: int| 0 <= k < x.written().len() ==> s[i + k] == #[trigger] x.written()[k],
        i + x.written().len() < s.len() ==> !x.goes_on(s[(i + x.written().len()) as int]),
    ensures
        ebnf_tokenizer::tokens_from(s, i) == x.tokens() + ebnf_tokenizer::tokens_from(
            s,
            (i + x.written().len()) as int,
        ),
{
    let w = x.written();
    let end = (i + w.len()) as int;
    let t = x.text;
    match x.mark {
        Some(q) => {
            let j = i + 1 + t.len();
            assert(s[i + 0] == w[0]);
            assert(s[i] == q);
            assert forall|k: int| i + 1 <= k < j implies #[trigger] s[k] == t[k - i - 1] by {
                assert(s[i + (k - i)] == w[k - i]);
            }
            assert(s[i + (1 + t.len())] == w[(1 + t.len()) as int]);
            assert(s[j] == q);
            lemma_quote_end(s, i + 1, j, q);
            assert(s.subrange(i + 1, j) =~= t);
            assert forall|k: int| j + 1 <= k < end implies blank(#[trigger] s[k]) by {
                assert(s[i + (k - i)] == w[k - i]);
                assert(w[k - i] == x.gap[k - j - 1]);
            }
            lemma_gap(s, j + 1, end);
            assert(!blank(s[i]));
            let rest = ebnf_tokenizer::tokens_from(s, j + 1);
            if t.len() > 0 {
                assert(seq![seq![q]] + seq![t] + (seq![seq![q]] + rest) =~= x.tokens() + rest);
            } else {
                assert(seq![seq![q]] + Seq::<Seq<char>>::empty() + (seq![seq![q]] + rest)
                    =~= x.tokens() + rest);
            }
        },
        None => {
            let j = i + t.len();
            assert forall|k: int| i <= k < j implies #[trigger] s[k] == t[k - i] by {
                assert(s[i + (k - i)] == w[k - i]);
            }
            assert forall|k: int| j <= k < end implies blank(#[trigger] s[k]) by {
                assert(s[i + (k - i)] == w[k - i]);
                assert(w[k - i] == x.gap[k - j]);
            }
            assert(s[i] == t[0]);
            // What stands right behind the token does not go on with it.
            if x.gap.len() > 0 {
                assert(blank(s[j]));
            } else {
                assert(end == j);
            }
            if is_word(t) {
                assert forall|k: int| i + 1 <= k < j implies lexis::name_part(#[trigger] s[k]) by {
                    assert(lexis::name_part(t[k - i]));
                }
                lemma_name_end(s, i + 1, j);
            } else if is_number(t) {
                assert('0' <= t[0] <= '9');
                assert forall|k: int| i + 1 <= k < j implies lexis::ascii_digit(
                    #[trigger] s[k],
                ) by {
                    assert('0' <= t[k - i] <= '9');
                }
                lemma_digits_end(s, i + 1, j);
            } else if t == seq![':', '='] {
                assert(s[i + 1] == t[1]);
            } else {
                if t[0] == ':' {
                    assert(t =~= seq![':']);
                }
            }
            assert(!blank(s[i]) && !quote(s[i]));
            assert(ebnf_tokenizer::token_end(s, i) == j);
            assert(s.subrange(i, j) =~= t);
            lemma_gap(s, j, end);
        },
    }
}

/// Lexemes that stand from `i` on give their tokens.
proof fn lemma_lexemes(s: Seq<char>, i: int, list: Seq<Lexeme>)
    requires
        0 <= i <= s.len(),
        apart(list),
        s.skip(i) == written_all(list),
    ensures
        ebnf_tokenizer::tokens_from(s, i) == tokens_all(list),
    decreases list.len(),
{
    if list.len() == 0 {
        assert(s.skip(i).len() == 0);
    } else {
        let x = list[0];
        let rest = list.drop_first();
        let w = x.written();
        let more = written_all(rest);
        let all = s.skip(i);
        assert(all == w + more);
        let end = (i + w.len()) as int;
        assert(all.len() == s.len() - i);
        assert forall|k: int| 0 <= k < w.len() implies s[i + k] == #[trigger] w[k] by {
            assert(all[k] == (w + more)[k]);
        }
        assert(s.skip(end) =~= more) by {
            assert forall|k: int| 0 <= k < more.len() implies s.skip(end)[k] == more[k] by {
                assert(all[w.len() + k] == (w + more)[w.len() + k]);
            }
        }
        assert(apart(rest)) by {
            assert forall|k: int| 0 <= k < rest.len() implies (#[trigger] rest[k]).proper() by {
                assert(rest[k] == list[k + 1]);
            }
            assert forall|k: int| 0 <= k < rest.len() - 1 implies !(#[trigger] rest[k]).goes_on(
                rest[k + 1].written()[0],
            ) by {
                assert(rest[k] == list[k + 1]);
                assert(rest[k + 1] == list[k + 1 + 1]);
            }
        }
        if end < s.len() {
            assert(rest.len() > 0) by {
                if rest.len() == 0 {
                    assert(more.len() == 0);
                }
            }
            let y = rest[0];
            assert(y == list[1]);
            assert(list[1].proper());
            assert(y.written().len() > 0);
            assert(s.skip(end)[0] == y.written()[0]);
            assert(!list[0].goes_on(list[1].written()[0]));
        }
        lemma_lexeme(s, i, x);
        lemma_lexemes(s, end, rest);
    }
}

/// A text is split into the tokens that it was written with: words and numerals of any length,
/// `:=`, any other character by itself, and quoted text, whatever it holds, between its marks;
/// white space parts them and is left out, and none is needed where one does not go on with the
/// next.
pub proof fn law_tokens_are_read_back(lead: Seq<char>, list: Seq<Lexeme>)
    requires
        is_gap(lead),
        apart(list),
    ensures
        ebnf_tokenizer::tokens_of(lead + written_all(list)) == tokens_all(list),
{
    let s = lead + written_all(list);
    let n = lead.len() as int;
    assert forall|k: int| 0 <= k < n implies blank(#[trigger] s[k]) by {
        assert(s[k] == lead[k]);
    }
    lemma_gap(s, 0, n);
    assert(s.skip(n) =~= written_all(list));
    lemma_lexemes(s, n, list);
}

} // verus!
