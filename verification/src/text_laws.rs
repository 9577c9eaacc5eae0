//! Capitalizing every other word of ASCII text: which characters change,
//! and that a second pass changes nothing.
use vstd::prelude::*;

use crate::playground::{
    ascii_up, capitalize_ascii_from, capitalize_from, flush_word, flush_word_ascii, is_ascii_text,
    upper_ascii, uppercase,
};
use crate::text::is_white;

verus! {

proof fn lemma_ascii_up(c: char)
    requires
        (c as u32) < 128,
    ensures
        (ascii_up(c) as u32) < 128,
        ascii_up(ascii_up(c)) == ascii_up(c),
        is_white(ascii_up(c)) == is_white(c),
{
}

/// How many words of `s` end before index `i`: the whitespace characters
/// before `i` that follow a non-whitespace one.
pub open spec fn words_before(s: Seq<char>, i: int) -> nat
    decreases i,
{
    if i <= 0 {
        0
    } else {
        words_before(s, i - 1) + (if i >= 2 && is_white(s[i - 1]) && !is_white(s[i - 2]) {
            1nat
        } else {
            0nat
        })
    }
}

/// Whether `s[k]` belongs to the second, fourth, ... word of `s`.
pub open spec fn in_odd_word(s: Seq<char>, k: int) -> bool {
    !is_white(s[k]) && words_before(s, k) % 2 == 1
}

/// `s` with the characters of its second, fourth, ... words in ASCII upper
/// case.
pub open spec fn odd_words_up(s: Seq<char>) -> Seq<char> {
    Seq::new(s.len(), |k: int| if in_odd_word(s, k) { ascii_up(s[k]) } else { s[k] })
}

/// Inside a word the count of finished words does not change.
proof fn lemma_words_inside(s: Seq<char>, a: int, i: int)
    requires
        0 <= a <= i <= s.len(),
        forall|k: int| a <= k < i ==> !is_white(#[trigger] s[k]),
    ensures
        forall|k: int| a <= k <= i ==> #[trigger] words_before(s, k) == words_before(s, a),
    decreases i - a,
{
    if a < i {
        lemma_words_inside(s, a, i - 1);
        assert(!is_white(s[i - 1]));
        assert(words_before(s, i) == words_before(s, i - 1));
    }
}

/// Texts that agree up to `i` and have whitespace at the same places count
/// the same words before `i`.
proof fn lemma_words_same(s: Seq<char>, t: Seq<char>, i: int)
    requires
        0 <= i,
        i <= s.len(),
        i <= t.len(),
        forall|k: int| 0 <= k < i ==> is_white(#[trigger] s[k]) == is_white(t[k]),
    ensures
        words_before(s, i) == words_before(t, i),
    decreases i,
{
    if i > 0 {
        lemma_words_same(s, t, i - 1);
        assert(is_white(s[i - 1]) == is_white(t[i - 1]));
        if i >= 2 {
            assert(is_white(s[i - 2]) == is_white(t[i - 2]));
        }
    }
}

/// The loop of `capitalize_ascii_from` writes `odd_words_up(p)`.
proof fn lemma_capitalize_run(p: Seq<char>, i: int, result: Seq<char>, word: Seq<char>, odd: bool)
    requires
        is_ascii_text(p),
        p.len() > 0,
        is_white(p.last()),
        0 <= word.len() <= i <= p.len(),
        word == p.subrange(i - word.len(), i),
        forall|k: int| i - word.len() <= k < i ==> !is_white(#[trigger] p[k]),
        i - word.len() == 0 || is_white(p[i - word.len() - 1]),
        result == odd_words_up(p).take(i - word.len()),
        odd == (words_before(p, i - word.len()) % 2 == 1),
    ensures
        capitalize_ascii_from(p, i, result, word, odd) == odd_words_up(p),
    decreases p.len() - i,
{
    let u = odd_words_up(p);
    let a = i - word.len();
    if i == p.len() {
        if word.len() > 0 {
            assert(!is_white(p[i - 1]));
        }
        assert(u.take(i) =~= u);
    } else if is_white(p[i]) {
        lemma_words_inside(p, a, i);
        let r2 = flush_word_ascii(result, word, odd);
        assert(r2 == u.take(i)) by {
            if word.len() > 0 {
                assert forall|k: int| 0 <= k < word.len() implies (#[trigger] word[k] as u32) < 128 by {
                    assert(word[k] == p[a + k]);
                }
                assert(words_before(p, a + 0) == words_before(p, a));
                let piece = if odd {
                    upper_ascii(word)
                } else {
                    word
                };
                assert forall|k: int| 0 <= k < word.len() implies #[trigger] u[a + k] == piece[k] by {
                    assert(word[k] == p[a + k]);
                    assert(words_before(p, a + k) == words_before(p, a));
                }
                assert(u.take(i) =~= u.take(a) + piece);
            } else {
                assert(u.take(i) =~= result);
            }
        }
        assert(u[i] == p[i]);
        assert(u.take(i + 1) =~= r2.push(p[i]));
        if word.len() > 0 {
            assert(!is_white(p[i - 1]));
            assert(words_before(p, i + 1) == words_before(p, i) + 1);
        } else {
            assert(words_before(p, i + 1) == words_before(p, i));
        }
        assert(p.subrange(i + 1, i + 1) =~= Seq::<char>::empty());
        lemma_capitalize_run(
            p,
            i + 1,
            r2.push(p[i]),
            Seq::empty(),
            if word.len() == 0 {
                odd
            } else {
                !odd
            },
        );
    } else {
        assert(word.push(p[i]) =~= p.subrange(a, i + 1));
        lemma_capitalize_run(p, i + 1, result, word.push(p[i]), odd);
    }
}

/// On ASCII text, the capitalizing pass upper-cases exactly the characters
/// of the second, fourth, ... words.
pub(crate) proof fn lemma_capitalize_ascii(s: Seq<char>)
    requires
        is_ascii_text(s),
    ensures
        capitalize_ascii_from(s.push(' '), 0, Seq::empty(), Seq::empty(), false).drop_last()
            == odd_words_up(s),
{
    let p = s.push(' ');
    assert forall|k: int| 0 <= k < p.len() implies (#[trigger] p[k] as u32) < 128 by {
        if k < s.len() {
            assert(p[k] == s[k]);
        }
    }
    assert(p.subrange(0, 0) =~= Seq::<char>::empty());
    assert(odd_words_up(p).take(0) =~= Seq::<char>::empty());
    lemma_capitalize_run(p, 0, Seq::empty(), Seq::empty(), false);
    assert forall|k: int| 0 <= k < s.len() implies #[trigger] odd_words_up(p)[k] == odd_words_up(s)[k] by {
        assert(p[k] == s[k]);
        lemma_words_same(p, s, k);
    }
    assert(odd_words_up(p).drop_last() =~= odd_words_up(s));
}

/// On ASCII text the capitalized form (see `capitalize_every_other_word`)
/// is ASCII again, as long as the text, with whitespace at the same places
/// and the same letters up to case; capitalizing it a second time changes
/// nothing.
pub proof fn law_capitalize_twice(text: Seq<char>)
    requires
        is_ascii_text(text),
    ensures
        is_ascii_text(odd_words_up(text)),
        odd_words_up(text).len() == text.len(),
        forall|k: int|
            0 <= k < text.len() ==> is_white(#[trigger] odd_words_up(text)[k]) == is_white(
                text[k],
            ) && ascii_up(odd_words_up(text)[k]) == ascii_up(text[k]),
        odd_words_up(odd_words_up(text)) == odd_words_up(text),
{
    let u = odd_words_up(text);
    assert forall|k: int| 0 <= k < u.len() implies (#[trigger] u[k] as u32) < 128 && is_white(u[k])
        == is_white(text[k]) && ascii_up(u[k]) == ascii_up(text[k]) by {
        lemma_ascii_up(text[k]);
    }
    assert forall|k: int| 0 <= k < u.len() implies #[trigger] odd_words_up(u)[k] == u[k] by {
        lemma_ascii_up(text[k]);
        assert forall|j: int| 0 <= j < k implies is_white(#[trigger] u[j]) == is_white(text[j]) by {
            lemma_ascii_up(text[j]);
        }
        lemma_words_same(u, text, k);
    }
    assert(odd_words_up(u) =~= u);
}

/// The end of the word that starts at `i`: the first whitespace at or after
/// `i`, or the end of `s`.
pub open spec fn word_end(s: Seq<char>, i: int) -> int
    decreases s.len() - i,
{
    if i < 0 || i >= s.len() || is_white(s[i]) {
        i
    } else {
        word_end(s, i + 1)
    }
}

/// `s[i..]` written a word at a time: whitespace as it is, and each maximal
/// run of other characters upper-cased when it is at an odd position
/// (`odd` for the first one), counting every word, whatever its
/// characters.
pub open spec fn words_capitalized(s: Seq<char>, i: int, odd: bool) -> Seq<char>
    decreases s.len() - i,
{
    if i < 0 || i >= s.len() {
        Seq::empty()
    } else if is_white(s[i]) {
        seq![s[i]] + words_capitalized(s, i + 1, odd)
    } else {
        let j = word_end(s, i);
        if j <= i || j > s.len() {
            Seq::empty()
        } else {
            let w = s.subrange(i, j);
            (if odd {
                uppercase(w)
            } else {
                w
            }) + words_capitalized(s, j, !odd)
        }
    }
}

proof fn lemma_word_end(s: Seq<char>, i: int)
    requires
        0 <= i <= s.len(),
    ensures
        i <= word_end(s, i) <= s.len(),
        forall|k: int| i <= k < word_end(s, i) ==> !is_white(#[trigger] s[k]),
        word_end(s, i) < s.len() ==> is_white(s[word_end(s, i)]),
    decreases s.len() - i,
{
    if i < s.len() && !is_white(s[i]) {
        lemma_word_end(s, i + 1);
    }
}

proof fn lemma_words_run(p: Seq<char>, i: int, result: Seq<char>, word: Seq<char>, odd: bool)
    requires
        p.len() > 0,
        is_white(p.last()),
        0 <= word.len() <= i <= p.len(),
        word == p.subrange(i - word.len(), i),
        forall|k: int| i - word.len() <= k < i ==> !is_white(#[trigger] p[k]),
    ensures
        capitalize_from(p, i, result, word, odd) == result + words_capitalized(
            p,
            i - word.len(),
            odd,
        ),
    decreases p.len() - i,
{
    let a = i - word.len();
    if i == p.len() {
        if word.len() > 0 {
            assert(!is_white(p[i - 1]));
        }
        assert(result + Seq::<char>::empty() == result);
    } else if is_white(p[i]) {
        let odd2 = if word.len() == 0 {
            odd
        } else {
            !odd
        };
        assert(p.subrange(i + 1, i + 1) =~= Seq::<char>::empty());
        lemma_words_run(p, i + 1, flush_word(result, word, odd).push(p[i]), Seq::empty(), odd2);
        if word.len() == 0 {
            assert(result.push(p[i]) + words_capitalized(p, i + 1, odd) =~= result + (seq![p[i]]
                + words_capitalized(p, i + 1, odd)));
        } else {
            lemma_word_end(p, a);
            assert(word_end(p, a) == i) by {
                if word_end(p, a) < i {
                    assert(is_white(p[word_end(p, a)]));
                }
                if word_end(p, a) > i {
                    assert(!is_white(p[i]));
                }
            }
            let piece = if odd {
                uppercase(word)
            } else {
                word
            };
            assert(words_capitalized(p, a, odd) == piece + words_capitalized(p, i, !odd));
            assert(words_capitalized(p, i, !odd) == seq![p[i]] + words_capitalized(p, i + 1, !odd));
            assert((result + piece).push(p[i]) + words_capitalized(p, i + 1, !odd) =~= result + (
            piece + (seq![p[i]] + words_capitalized(p, i + 1, !odd))));
        }
    } else {
        assert(word.push(p[i]) =~= p.subrange(a, i + 1));
        lemma_words_run(p, i + 1, result, word.push(p[i]), odd);
    }
}

proof fn lemma_words_space(s: Seq<char>, i: int, odd: bool)
    requires
        0 <= i <= s.len(),
    ensures
        words_capitalized(s.push(' '), i, odd) == words_capitalized(s, i, odd).push(' '),
    decreases s.len() - i,
{
    let p = s.push(' ');
    if i == s.len() {
        assert(p[i] == ' ');
        assert(words_capitalized(p, i + 1, odd) == Seq::<char>::empty());
        assert(seq![' '] + Seq::<char>::empty() =~= Seq::<char>::empty().push(' '));
    } else {
        assert(p[i] == s[i]);
        if is_white(s[i]) {
            lemma_words_space(s, i + 1, odd);
            assert(seq![s[i]] + words_capitalized(s, i + 1, odd).push(' ') =~= (seq![s[i]]
                + words_capitalized(s, i + 1, odd)).push(' '));
        } else {
            lemma_word_end(s, i);
            lemma_word_end(p, i);
            let j = word_end(s, i);
            assert(word_end(p, i) == j) by {
                let jp = word_end(p, i);
                if jp < j {
                    assert(p[jp] == s[jp]);
                    assert(!is_white(s[jp]));
                } else if jp > j {
                    if j < s.len() {
                        assert(p[j] == s[j]);
                    } else {
                        assert(p[j] == ' ');
                    }
                    assert(!is_white(p[j]));
                }
            }
            assert(p.subrange(i, j) =~= s.subrange(i, j));
            lemma_words_space(s, j, !odd);
            let w = s.subrange(i, j);
            let piece = if odd {
                uppercase(w)
            } else {
                w
            };
            assert(piece + words_capitalized(s, j, !odd).push(' ') =~= (piece + words_capitalized(
                s,
                j,
                !odd,
            )).push(' '));
        }
    }
}

/// Capitalizing writes the text a word at a time: whitespace as it is, and
/// the second, fourth, ... maximal runs of other characters upper-cased,
/// every run counting as a word whatever its characters (see
/// [`words_capitalized`]).
pub proof fn law_capitalize_by_words(text: Seq<char>)
    ensures
        crate::playground::capitalize_spec(text) == words_capitalized(text, 0, false),
{
    let p = text.push(' ');
    assert(p.subrange(0, 0) =~= Seq::<char>::empty());
    lemma_words_run(p, 0, Seq::empty(), Seq::empty(), false);
    lemma_words_space(text, 0, false);
    assert(Seq::<char>::empty() + words_capitalized(p, 0, false) == words_capitalized(p, 0, false));
    assert(words_capitalized(text, 0, false).push(' ').drop_last() =~= words_capitalized(
        text,
        0,
        false,
    ));
}

} // verus!
