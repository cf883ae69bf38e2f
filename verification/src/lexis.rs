//! Classes of characters, and which tokens a terminal symbol matches.

use vstd::prelude::*;
use vstd::string::*;

verus! {

/// An ASCII letter.
pub open spec fn ascii_letter(c: char) -> bool {
    'a' <= c <= 'z' || 'A' <= c <= 'Z'
}

/// An ASCII digit.
pub open spec fn ascii_digit(c: char) -> bool {
    '0' <= c <= '9'
}

/// A character of the ASCII range.
pub open spec fn ascii(c: char) -> bool {
    (c as u32) < 128
}

/// What `char::is_alphabetic` says of a character.
pub uninterp spec fn unicode_alphabetic(c: char) -> bool;

/// What `char::is_alphanumeric` says of a character.
pub uninterp spec fn unicode_alphanumeric(c: char) -> bool;

/// A character with the Alphabetic property of Unicode.
pub open spec fn alphabetic(c: char) -> bool {
    if ascii(c) {
        ascii_letter(c)
    } else {
        unicode_alphabetic(c)
    }
}

/// An alphabetic or numeric character.
pub open spec fn alphanumeric(c: char) -> bool {
    if ascii(c) {
        ascii_letter(c) || ascii_digit(c)
    } else {
        unicode_alphanumeric(c)
    }
}

/// A control code: the Unicode category Cc.
pub open spec fn control(c: char) -> bool {
    (c as u32) < 0x20 || 0x7f <= (c as u32) < 0xa0
}

/// `char::is_alphabetic`: among the ASCII characters, exactly the letters have the Alphabetic
/// property; what it says of any other character depends on that character alone.
#[verifier::external_body]
pub(crate) fn is_alphabetic(c: char) -> (b: bool)
    ensures
        b == if ascii(c) {
            ascii_letter(c)
        } else {
            unicode_alphabetic(c)
        },
{
    c.is_alphabetic()
}

/// `char::is_alphanumeric`: among the ASCII characters, exactly the letters and the digits are
/// alphanumeric; what it says of any other character depends on that character alone.
#[verifier::external_body]
pub(crate) fn is_alphanumeric(c: char) -> (b: bool)
    ensures
        b == if ascii(c) {
            ascii_letter(c) || ascii_digit(c)
        } else {
            unicode_alphanumeric(c)
        },
{
    c.is_alphanumeric()
}

/// Whether `c` can stand in a name behind its first character.
pub open spec fn name_part(c: char) -> bool {
    alphanumeric(c) || c == '_'
}

/// A name: a letter, then letters, digits and underscores. The empty string passes.
pub open spec fn is_name(t: Seq<char>) -> bool {
    forall|k: int|
        0 <= k < t.len() ==> if k == 0 {
            alphabetic(#[trigger] t[k])
        } else {
            name_part(t[k])
        }
}

/// Text without control codes.
pub open spec fn is_text(t: Seq<char>) -> bool {
    forall|k: int| 0 <= k < t.len() ==> !control(#[trigger] t[k])
}

/// A tag: an at sign and a name. `@prio` is none, and the empty string passes.
pub open spec fn is_tag(t: Seq<char>) -> bool {
    &&& t != "@prio"@
    &&& forall|k: int|
        0 <= k < t.len() ==> if k == 0 {
            #[trigger] t[k] == '@'
        } else if k == 1 {
            alphabetic(t[k])
        } else {
            name_part(t[k])
        }
}

/// A non-empty string of digits.
pub open spec fn is_digits(t: Seq<char>) -> bool {
    &&& t.len() > 0
    &&& forall|k: int| 0 <= k < t.len() ==> ascii_digit(#[trigger] t[k])
}

/// Whether two strings are equal.
pub fn same_text(a: &str, b: &str) -> (same: bool)
    ensures
        same == (a@ == b@),
{
    let x: Vec<char> = chars_of(a);
    let y: Vec<char> = chars_of(b);
    if x.len() != y.len() {
        return false;
    }
    let mut k: usize = 0;
    while k < x.len()
        invariant
            x@ == a@,
            y@ == b@,
            k <= x.len(),
            x.len() == y.len(),
            forall|j: int| 0 <= j < k ==> x@[j] == y@[j],
        decreases x.len() - k,
    {
        if x[k] != y[k] {
            proof {
                assert(a@[k as int] != b@[k as int]);
            }
            return false;
        }
        k = k + 1;
    }
    proof {
        assert(a@ =~= b@);
    }
    true
}

/// The characters of a string.
pub fn chars_of(s: &str) -> (list: Vec<char>)
    ensures
        list@ == s@,
{
    let mut list: Vec<char> = Vec::new();
    for c in it: s.chars()
        invariant
            it.seq() == s@,
            list@ == s@.take(it.index()),
    {
        list.push(c);
        proof {
            assert(s@.take(it.index() + 1) =~= s@.take(it.index()).push(c));
        }
    }
    proof {
        assert(s@.take(s@.len() as int) =~= s@);
    }
    list
}

/// The predicate may give this answer for the token.
pub open spec fn may_say<P: Fn(&str) -> bool>(p: P, t: Seq<char>, answer: bool) -> bool {
    exists|a: &str| a@ == t && #[trigger] call_ensures(p, (a,), answer)
}

/// The predicate can be asked about the token.
pub open spec fn may_ask<P: Fn(&str) -> bool>(p: P, t: Seq<char>) -> bool {
    forall|a: &str| a@ == t ==> #[trigger] call_requires(p, (a,))
}

/// Which tokens a terminal symbol matches, over plain values.
pub enum MatcherModel<P> {
    /// One token only.
    Exactly(Seq<char>),
    /// Names.
    Name,
    /// Text without control codes.
    Text,
    /// Tags.
    Tag,
    /// Numerals.
    Digits,
    /// The tokens of which a predicate says so.
    Plugged(P),
}

impl<P: Fn(&str) -> bool> MatcherModel<P> {
    /// A match is possible: the predicate may say yes.
    pub open spec fn accepts(self, t: Seq<char>) -> bool {
        match self {
            MatcherModel::Exactly(s) => t == s,
            MatcherModel::Name => is_name(t),
            MatcherModel::Text => is_text(t),
            MatcherModel::Tag => is_tag(t),
            MatcherModel::Digits => is_digits(t),
            MatcherModel::Plugged(p) => may_say(p, t, true),
        }
    }

    /// A mismatch is possible: the predicate may say no.
    pub open spec fn rejects(self, t: Seq<char>) -> bool {
        match self {
            MatcherModel::Plugged(p) => may_say(p, t, false),
            _ => !self.accepts(t),
        }
    }

    /// The predicate can be asked about the token.
    pub open spec fn askable(self, t: Seq<char>) -> bool {
        match self {
            MatcherModel::Plugged(p) => may_ask(p, t),
            _ => true,
        }
    }
}

/// A predicate decides alone, whatever the token: a match means that it may answer yes, a mismatch
/// that it may answer no, and where it can only give one answer, that is what happens.
pub proof fn law_the_predicate_decides<P: Fn(&str) -> bool>(p: P, t: Seq<char>)
    ensures
        MatcherModel::Plugged(p).accepts(t) <==> exists|a: &str|
            a@ == t && #[trigger] call_ensures(p, (a,), true),
        MatcherModel::Plugged(p).rejects(t) <==> exists|a: &str|
            a@ == t && #[trigger] call_ensures(p, (a,), false),
        MatcherModel::Plugged(p).askable(t) <==> forall|a: &str|
            a@ == t ==> #[trigger] call_requires(p, (a,)),
{
}

/// What the other terminals match, character by character: a token that is the very text; a name,
/// which is a letter and then letters, digits and underscores; text without control codes; a tag,
/// which is an at sign and a name, other than `@prio`; a numeral, which is one digit or more. They
/// mismatch everything else.
pub proof fn law_what_terminals_match<P: Fn(&str) -> bool>(
    m: MatcherModel<P>,
    s: Seq<char>,
    t: Seq<char>,
)
    ensures
        ({
            let letter = |c: char|
                if (c as u32) < 128 {
                    'a' <= c <= 'z' || 'A' <= c <= 'Z'
                } else {
                    unicode_alphabetic(c)
                };
            let part = |c: char|
                c == '_' || if (c as u32) < 128 {
                    'a' <= c <= 'z' || 'A' <= c <= 'Z' || '0' <= c <= '9'
                } else {
                    unicode_alphanumeric(c)
                };
            &&& m == MatcherModel::<P>::Exactly(s) ==> (m.accepts(t) <==> t == s)
            &&& m is Name ==> (m.accepts(t) <==> (forall|k: int|
                #![trigger t[k]]
                0 <= k < t.len() ==> (k == 0 && letter(t[k])) || (k > 0 && part(t[k]))))
            &&& m is Text ==> (m.accepts(t) <==> (forall|k: int|
                #![trigger t[k]]
                0 <= k < t.len() ==> 0x20 <= (t[k] as u32) < 0x7f || 0xa0 <= (t[k] as u32)))
            &&& m is Tag ==> (m.accepts(t) <==> t != seq!['@', 'p', 'r', 'i', 'o'] && (forall|
                k: int,
            |
                #![trigger t[k]]
                0 <= k < t.len() ==> (k == 0 && t[k] == '@') || (k == 1 && letter(t[k])) || (k > 1
                    && part(t[k]))))
            &&& m is Digits ==> (m.accepts(t) <==> t.len() > 0 && (forall|k: int|
                #![trigger t[k]]
                0 <= k < t.len() ==> '0' <= t[k] <= '9'))
            &&& !(m is Plugged) ==> (m.rejects(t) <==> !m.accepts(t))
        }),
{
    reveal_strlit("@prio");
    assert("@prio"@ =~= seq!['@', 'p', 'r', 'i', 'o']);
    if m is Name && m.accepts(t) {
        assert forall|k: int| #![trigger t[k]] 0 <= k < t.len() implies (k == 0 && alphabetic(t[k]))
            || (k > 0 && name_part(t[k])) by {}
    }
}

/// Which tokens a terminal symbol matches.
pub enum Matcher<P> {
    /// One token only.
    Exactly(String),
    /// Names.
    Name,
    /// Text without control codes.
    Text,
    /// Tags.
    Tag,
    /// Numerals.
    Digits,
    /// The tokens of which a predicate says so.
    Plugged(P),
}

impl<P> View for Matcher<P> {
    type V = MatcherModel<P>;

    open spec fn view(&self) -> MatcherModel<P> {
        match *self {
            Matcher::Exactly(s) => MatcherModel::Exactly(s@),
            Matcher::Name => MatcherModel::Name,
            Matcher::Text => MatcherModel::Text,
            Matcher::Tag => MatcherModel::Tag,
            Matcher::Digits => MatcherModel::Digits,
            Matcher::Plugged(p) => MatcherModel::Plugged(p),
        }
    }
}

/// A matcher over plain values is what it is.
pub proof fn law_what_a_matcher_is<P>(s: String, p: P)
    ensures
        (Matcher::<P>::Exactly(s))@ == MatcherModel::<P>::Exactly(s@),
        (Matcher::<P>::Name)@ == MatcherModel::<P>::Name,
        (Matcher::<P>::Text)@ == MatcherModel::<P>::Text,
        (Matcher::<P>::Tag)@ == MatcherModel::<P>::Tag,
        (Matcher::<P>::Digits)@ == MatcherModel::<P>::Digits,
        (Matcher::<P>::Plugged(p))@ == MatcherModel::<P>::Plugged(p),
{
}

impl<P: Fn(&str) -> bool> Matcher<P> {
    /// Whether the token matches.
    pub fn matches(&self, token: &str) -> (b: bool)
        requires
            self@.askable(token@),
        ensures
            b ==> self@.accepts(token@),
            !b ==> self@.rejects(token@),
            *self matches Matcher::Plugged(p) ==> call_ensures(p, (token,), b),
            *self matches Matcher::Exactly(s) ==> b == (token@ == s@),
    {
        match self {
            Matcher::Exactly(s) => same_text(s.as_str(), token),
            Matcher::Name => matches_name(token),
            Matcher::Text => matches_text(token),
            Matcher::Tag => matches_tag(token),
            Matcher::Digits => matches_digits(token),
            Matcher::Plugged(p) => {
                proof {
                    assert(may_ask(*p, token@));
                }
                let b = p(token);
                proof {
                    assert(may_say(*p, token@, b));
                }
                b
            },
        }
    }
}

/// Whether the token is a name.
fn matches_name(token: &str) -> (b: bool)
    ensures
        b == is_name(token@),
{
    let list = chars_of(token);
    let mut k: usize = 0;
    while k < list.len()
        invariant
            list@ == token@,
            k <= list.len(),
            forall|j: int|
                0 <= j < k ==> if j == 0 {
                    alphabetic(#[trigger] list@[j])
                } else {
                    name_part(list@[j])
                },
        decreases list.len() - k,
    {
        let c = list[k];
        let ok = if k == 0 {
            is_alphabetic(c)
        } else {
            is_alphanumeric(c) || c == '_'
        };
        if !ok {
            return false;
        }
        k = k + 1;
    }
    true
}

/// Whether the token is text without control codes.
fn matches_text(token: &str) -> (b: bool)
    ensures
        b == is_text(token@),
{
    let list = chars_of(token);
    let mut k: usize = 0;
    while k < list.len()
        invariant
            list@ == token@,
            k <= list.len(),
            forall|j: int| 0 <= j < k ==> !control(#[trigger] list@[j]),
        decreases list.len() - k,
    {
        let code: u32 = list[k] as u32;
        if code < 0x20 || (0x7f <= code && code < 0xa0) {
            return false;
        }
        k = k + 1;
    }
    true
}

/// Whether the token is a tag.
fn matches_tag(token: &str) -> (b: bool)
    ensures
        b == is_tag(token@),
{
    if same_text(token, "@prio") {
        return false;
    }
    let list = chars_of(token);
    let mut k: usize = 0;
    while k < list.len()
        invariant
            list@ == token@,
            token@ != "@prio"@,
            k <= list.len(),
            forall|j: int|
                0 <= j < k ==> if j == 0 {
                    #[trigger] list@[j] == '@'
                } else if j == 1 {
                    alphabetic(list@[j])
                } else {
                    name_part(list@[j])
                },
        decreases list.len() - k,
    {
        let c = list[k];
        let ok = if k == 0 {
            c == '@'
        } else if k == 1 {
            is_alphabetic(c)
        } else {
            is_alphanumeric(c) || c == '_'
        };
        if !ok {
            return false;
        }
        k = k + 1;
    }
    true
}

/// Whether the token is a numeral.
fn matches_digits(token: &str) -> (b: bool)
    ensures
        b == is_digits(token@),
{
    let list = chars_of(token);
    if list.len() == 0 {
        return false;
    }
    let mut k: usize = 0;
    while k < list.len()
        invariant
            list@ == token@,
            list.len() > 0,
            k <= list.len(),
            forall|j: int| 0 <= j < k ==> ascii_digit(#[trigger] list@[j]),
        decreases list.len() - k,
    {
        let c = list[k];
        if !is_ascii_digit(c) {
            return false;
        }
        k = k + 1;
    }
    true
}

/// Whether the character is an ASCII digit.
pub fn is_ascii_digit(c: char) -> (b: bool)
    ensures
        b == ascii_digit(c),
{
    '0' <= c && c <= '9'
}

} // verus!
