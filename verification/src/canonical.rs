//! The canonical form of a rule names one rule only.

use vstd::prelude::*;

use crate::grammar::RuleModel;
use crate::text;

verus! {

/// A word: not empty, and without spaces.
pub open spec fn word(s: Seq<char>) -> bool {
    s.len() > 0 && forall|k: int| 0 <= k < s.len() ==> #[trigger] s[k] != ' '
}

/// The symbols of the rule are words.
pub open spec fn in_words(rule: RuleModel) -> bool {
    &&& word(rule.head)
    &&& forall|k: int| 0 <= k < rule.spec.len() ==> word(#[trigger] rule.spec[k])
}

/// Texts that begin with a word and a space have the same word and the same rest if they are
/// the same.
proof fn lemma_split_first(a: Seq<char>, b: Seq<char>, x: Seq<char>, y: Seq<char>)
    requires
        word(a),
        word(b),
        x.len() > 0,
        y.len() > 0,
        x[0] == ' ',
        y[0] == ' ',
        a + x == b + y,
    ensures
        a == b,
        x == y,
{
    let s = a + x;
    assert(s[a.len() as int] == x[0]);
    assert((b + y)[b.len() as int] == y[0]);
    if a.len() < b.len() {
        assert((b + y)[a.len() as int] == b[a.len() as int]);
    }
    if b.len() < a.len() {
        assert(s[b.len() as int] == a[b.len() as int]);
    }
    assert(a =~= s.take(a.len() as int));
    assert(b =~= (b + y).take(b.len() as int));
    assert(x =~= s.skip(a.len() as int));
    assert(y =~= (b + y).skip(b.len() as int));
}

/// Texts that end with a space and a word have the same word and the same rest if they are the
/// same.
proof fn lemma_split_last(a: Seq<char>, b: Seq<char>, x: Seq<char>, y: Seq<char>)
    requires
        word(a),
        word(b),
        x.len() > 0,
        y.len() > 0,
        x.last() == ' ',
        y.last() == ' ',
        x + a == y + b,
    ensures
        a == b,
        x == y,
{
    let s = x + a;
    let t = y + b;
    assert(s.len() == x.len() + a.len());
    assert(t.len() == y.len() + b.len());
    assert(s[x.len() - 1] == ' ');
    assert(t[y.len() - 1] == ' ');
    if x.len() < y.len() {
        assert(s[y.len() - 1] == a[y.len() - 1 - x.len()]);
    }
    if y.len() < x.len() {
        assert(t[x.len() - 1] == b[x.len() - 1 - y.len()]);
    }
    assert(x =~= s.take(x.len() as int));
    assert(y =~= t.take(y.len() as int));
    assert(a =~= s.skip(x.len() as int));
    assert(b =~= t.skip(y.len() as int));
}

/// Joined words end with the last of them.
proof fn lemma_join_len(parts: Seq<Seq<char>>)
    requires
        parts.len() > 0,
        forall|k: int| 0 <= k < parts.len() ==> word(#[trigger] parts[k]),
    ensures
        text::join(parts, " "@).len() > 0,
        parts.len() > 1 ==> text::join(parts, " "@) == (text::join(parts.drop_last(), " "@) + " "@)
            + parts.last(),
{
    assert(word(parts[parts.len() - 1]));
}

/// Words can be told from what they are joined to.
proof fn lemma_join(a: Seq<Seq<char>>, b: Seq<Seq<char>>)
    requires
        forall|k: int| 0 <= k < a.len() ==> word(#[trigger] a[k]),
        forall|k: int| 0 <= k < b.len() ==> word(#[trigger] b[k]),
        text::join(a, " "@) == text::join(b, " "@),
    ensures
        a == b,
    decreases a.len(),
{
    let sep = " "@;
    reveal_strlit(" ");
    if a.len() > 0 {
        lemma_join_len(a);
    }
    if b.len() > 0 {
        lemma_join_len(b);
    }
    if a.len() == 0 || b.len() == 0 {
        assert(a =~= b);
    } else {
        let x = a.last();
        let y = b.last();
        assert(word(a[a.len() - 1]));
        assert(word(b[b.len() - 1]));
        if a.len() == 1 && b.len() > 1 {
            let front = text::join(b.drop_last(), sep) + sep;
            assert((front + y)[front.len() - 1] == ' ');
            assert(a[0][front.len() - 1] == ' ');
        } else if b.len() == 1 && a.len() > 1 {
            let front = text::join(a.drop_last(), sep) + sep;
            assert((front + x)[front.len() - 1] == ' ');
            assert(b[0][front.len() - 1] == ' ');
        } else if a.len() > 1 {
            let p = text::join(a.drop_last(), sep);
            let q = text::join(b.drop_last(), sep);
            assert((p + sep).last() == ' ');
            assert((q + sep).last() == ' ');
            lemma_split_last(x, y, p + sep, q + sep);
            assert(p =~= (p + sep).drop_last());
            assert(q =~= (q + sep).drop_last());
            assert forall|k: int| 0 <= k < a.drop_last().len() implies word(
                #[trigger] a.drop_last()[k],
            ) by {
                assert(a.drop_last()[k] == a[k]);
            }
            assert forall|k: int| 0 <= k < b.drop_last().len() implies word(
                #[trigger] b.drop_last()[k],
            ) by {
                assert(b.drop_last()[k] == b[k]);
            }
            lemma_join(a.drop_last(), b.drop_last());
            assert(a =~= a.drop_last().push(x));
            assert(b =~= b.drop_last().push(y));
        } else {
            assert(a =~= seq![x]);
            assert(b =~= seq![y]);
        }
    }
}

/// The canonical form is written symbol by symbol: of a rule without symbols it is the head and an
/// arrow, the first symbol comes right behind these, and each other one behind a space.
pub proof fn law_canonical_form_goes_on(rule: RuleModel, symbol: Seq<char>)
    ensures
        rule.spec.len() == 0 ==> rule.text() == rule.head + seq![' ', '-', '>', ' '],
        (RuleModel { head: rule.head, spec: rule.spec.push(symbol) }).text() == if rule.spec.len()
            == 0 {
            rule.text() + symbol
        } else {
            rule.text() + seq![' '] + symbol
        },
{
    reveal_strlit(" -> ");
    reveal_strlit(" ");
    let arrow = " -> "@;
    let sep = " "@;
    let spec = rule.spec.push(symbol);
    let more = RuleModel { head: rule.head, spec };
    assert(arrow =~= seq![' ', '-', '>', ' ']);
    assert(sep =~= seq![' ']);
    assert(spec.drop_last() =~= rule.spec);
    assert(spec.last() == symbol);
    if rule.spec.len() == 0 {
        assert(rule.text() =~= rule.head + arrow);
        assert(spec[0] == symbol);
        assert(more.text() =~= rule.text() + symbol);
    } else {
        assert(more.text() =~= rule.text() + sep + symbol);
    }
}

/// Rules whose symbols are words, not empty and without spaces, have the same canonical form
/// only if they are the same. So an action or a priority is that of one rule.
pub proof fn law_canonical_form_is_unique(a: RuleModel, b: RuleModel)
    requires
        in_words(a),
        in_words(b),
        a.text() == b.text(),
    ensures
        a == b,
{
    reveal_strlit(" -> ");
    let arrow = " -> "@;
    let x = arrow + text::join(a.spec, " "@);
    let y = arrow + text::join(b.spec, " "@);
    assert(a.text() =~= a.head + x);
    assert(b.text() =~= b.head + y);
    assert(x[0] == arrow[0]);
    assert(y[0] == arrow[0]);
    lemma_split_first(a.head, b.head, x, y);
    assert(text::join(a.spec, " "@) =~= x.skip(4));
    assert(text::join(b.spec, " "@) =~= y.skip(4));
    lemma_join(a.spec, b.spec);
}

} // verus!
