//! The text playground: capitalizes every other word of a text.
use vstd::prelude::*;

use crate::env::{EnvError, ValidationResult};
use crate::random::random_inclusive;
use crate::text::{chars_of, is_white, is_whitespace};
use crate::text_laws::{lemma_capitalize_ascii, odd_words_up};
use rand::rngs::StdRng;

verus! {

/// What `str::to_uppercase` returns for `s`: its Unicode upper-case form.
pub uninterp spec fn uppercase(s: Seq<char>) -> Seq<char>;

/// The ASCII upper case of `c`: `a`..`z` become `A`..`Z`, every other
/// character stays.
pub open spec fn ascii_up(c: char) -> char {
    if 97 <= (c as u32) <= 122 {
        ((c as u32) - 32) as char
    } else {
        c
    }
}

/// Whether every character of `s` is ASCII.
pub open spec fn is_ascii_text(s: Seq<char>) -> bool {
    forall|i: int| 0 <= i < s.len() ==> (#[trigger] s[i] as u32) < 128
}

/// `s` in ASCII upper case.
pub open spec fn upper_ascii(s: Seq<char>) -> Seq<char> {
    s.map_values(|c: char| ascii_up(c))
}

/// Calls `str::to_uppercase`. The contract claims that the result is fixed
/// by the string, and names it; on ASCII text it is the ASCII upper case
/// (letters `a`..`z` to `A`..`Z`, every other character kept), as the
/// Unicode case mapping that the documentation names gives for ASCII. The
/// mapping of other characters is not restated.
#[verifier::external_body]
fn to_uppercase(s: &str) -> (r: String)
    ensures
        r@ == uppercase(s@),
        is_ascii_text(s@) ==> r@ == upper_ascii(s@),
{
    s.to_uppercase()
}

/// `result` with the finished `word` appended: upper-cased when it is the
/// word at an odd position (`odd`), as it is otherwise.
pub open spec fn flush_word(result: Seq<char>, word: Seq<char>, odd: bool) -> Seq<char> {
    if word.len() == 0 {
        result
    } else if odd {
        result + uppercase(word)
    } else {
        result + word
    }
}

/// Processing `s[i..]` after `result` was written and `word` was read
/// since the last whitespace; `odd` tells whether an odd number of words
/// was finished. Whitespace is copied; it ends the word before it.
pub open spec fn capitalize_from(s: Seq<char>, i: int, result: Seq<char>, word: Seq<char>, odd: bool) -> Seq<char>
    decreases s.len() - i,
{
    if i < 0 || i >= s.len() {
        result
    } else if is_white(s[i]) {
        capitalize_from(
            s,
            i + 1,
            flush_word(result, word, odd).push(s[i]),
            Seq::empty(),
            if word.len() == 0 {
                odd
            } else {
                !odd
            },
        )
    } else {
        capitalize_from(s, i + 1, result, word.push(s[i]), odd)
    }
}

/// `text` with its second, fourth, ... whitespace-separated words in upper
/// case and everything else as it was: the text is read with one space
/// appended, and the last character written is dropped.
pub open spec fn capitalize_spec(text: Seq<char>) -> Seq<char> {
    capitalize_from(text.push(' '), 0, Seq::empty(), Seq::empty(), false).drop_last()
}

/// `result` with the finished `word` appended, in ASCII upper case when it
/// is the word at an odd position (`odd`).
pub open spec fn flush_word_ascii(result: Seq<char>, word: Seq<char>, odd: bool) -> Seq<char> {
    if word.len() == 0 {
        result
    } else if odd {
        result + upper_ascii(word)
    } else {
        result + word
    }
}

/// [`capitalize_from`] with the ASCII upper case in place of `uppercase`:
/// what it computes on ASCII text.
pub open spec fn capitalize_ascii_from(
    s: Seq<char>,
    i: int,
    result: Seq<char>,
    word: Seq<char>,
    odd: bool,
) -> Seq<char>
    decreases s.len() - i,
{
    if i < 0 || i >= s.len() {
        result
    } else if is_white(s[i]) {
        capitalize_ascii_from(
            s,
            i + 1,
            flush_word_ascii(result, word, odd).push(s[i]),
            Seq::empty(),
            if word.len() == 0 {
                odd
            } else {
                !odd
            },
        )
    } else {
        capitalize_ascii_from(s, i + 1, result, word.push(s[i]), odd)
    }
}

pub fn capitalize_every_other_word(text: &str) -> (r: String)
    ensures
        r@ == capitalize_spec(text@),
        is_ascii_text(text@) ==> r@ == odd_words_up(text@),
{
    let mut chars = chars_of(text);
    chars.push(' ');
    let ghost s = chars@;
    proof {
        if is_ascii_text(text@) {
            assert forall|k: int| 0 <= k < s.len() implies (#[trigger] s[k] as u32) < 128 by {
                if k < text@.len() {
                    assert(s[k] == text@[k]);
                }
            }
        }
    }
    let mut result = String::new();
    let mut current_word = String::new();
    let mut word_count: usize = 0;
    let mut i: usize = 0;
    while i < chars.len()
        invariant
            i <= chars.len(),
            s == chars@,
            s == text@.push(' '),
            word_count <= i,
            i == chars.len() ==> result@.len() > 0,
            capitalize_from(s, i as int, result@, current_word@, word_count % 2 == 1)
                == capitalize_from(s, 0, Seq::empty(), Seq::empty(), false),
            is_ascii_text(text@) ==> is_ascii_text(s),
            is_ascii_text(text@) ==> is_ascii_text(current_word@),
            is_ascii_text(text@) ==> capitalize_ascii_from(
                s,
                i as int,
                result@,
                current_word@,
                word_count % 2 == 1,
            ) == capitalize_ascii_from(s, 0, Seq::empty(), Seq::empty(), false),
        decreases chars.len() - i,
    {
        let ch = chars[i];
        let ghost r0 = result@;
        let ghost w0 = current_word@;
        let ghost odd0 = word_count % 2 == 1;
        if is_whitespace(ch) {
            if !current_word.as_str().is_empty() {
                if word_count % 2 == 1 {
                    let up = to_uppercase(current_word.as_str());
                    result.append(up.as_str());
                } else {
                    result.append(current_word.as_str());
                }
                current_word = String::new();
                word_count = word_count + 1;
            }
            result.push(ch);
            assert(result@ == flush_word(r0, w0, odd0).push(s[i as int]));
            assert(is_ascii_text(text@) ==> result@ == flush_word_ascii(r0, w0, odd0).push(
                s[i as int],
            ));
            assert(current_word@ == Seq::<char>::empty());
            assert((word_count % 2 == 1) == (if w0.len() == 0 { odd0 } else { !odd0 }));
        } else {
            let ghost w0 = current_word@;
            current_word.push(ch);
            proof {
                if is_ascii_text(text@) {
                    assert forall|k: int| 0 <= k < current_word@.len() implies (
                    #[trigger] current_word@[k] as u32) < 128 by {
                        if k < w0.len() {
                            assert(current_word@[k] == w0[k]);
                        } else {
                            assert(current_word@[k] == s[i as int]);
                        }
                    }
                }
            }
        }
        i = i + 1;
    }
    proof {
        if is_ascii_text(text@) {
            lemma_capitalize_ascii(text@);
        }
    }
    result.pop();
    result
}

/// The input of the playground: a text.
pub struct Input {
    pub text: String,
}

/// The output of the playground: the transformed text.
pub struct Output {
    pub result: String,
}

/// The reference output for `input`.
pub fn run(input: &Input) -> (r: Result<Output, EnvError>)
    ensures
        r matches Ok(out) && out.result@ == capitalize_spec(input.text@),
        r matches Ok(out) && (is_ascii_text(input.text@) ==> out.result@ == odd_words_up(
            input.text@,
        )),
{
    Ok(Output { result: capitalize_every_other_word(input.text.as_str()) })
}

/// The verdict on `output`: correct exactly when it equals the reference.
pub open spec fn verdict(input: &Input, output: &Output) -> bool {
    output.result@ == capitalize_spec(input.text@)
}

/// Compares `output` with the reference output for `input`.
pub fn validate(input: &Input, output: &Output) -> (r: Result<ValidationResult, EnvError>)
    ensures
        r matches Ok(v) && (v is Correct <==> verdict(input, output)),
        r matches Ok(ValidationResult::Mismatch { reason }) ==> reason@
            == "Did not produce same as reference."@,
{
    let reference = match run(input) {
        Ok(o) => o,
        Err(e) => {
            return Err(e);
        },
    };
    if reference.result == output.result {
        Ok(ValidationResult::Correct)
    } else {
        Ok(
            ValidationResult::Mismatch {
                reason: String::from_str("Did not produce same as reference."),
            },
        )
    }
}


/// The words a generated text is made of.
pub open spec fn word_list() -> Seq<Seq<char>> {
    seq![
        "Hello"@,
        "world"@,
        "\u{1F30E}"@,
        "This"@,
        "is"@,
        "my"@,
        "input"@,
        "Rust"@,
        "programming"@,
        "language"@,
        "testing"@,
        "example"@,
        "foo"@,
        "bar"@,
        "baz"@,
        "qux"@,
        "\u{1F609}"@,
    ]
}

fn word(k: usize) -> (r: &'static str)
    requires
        k < 17,
    ensures
        r@ == word_list()[k as int],
{
    if k == 0 {
        "Hello"
    } else if k == 1 {
        "world"
    } else if k == 2 {
        "\u{1F30E}"
    } else if k == 3 {
        "This"
    } else if k == 4 {
        "is"
    } else if k == 5 {
        "my"
    } else if k == 6 {
        "input"
    } else if k == 7 {
        "Rust"
    } else if k == 8 {
        "programming"
    } else if k == 9 {
        "language"
    } else if k == 10 {
        "testing"
    } else if k == 11 {
        "example"
    } else if k == 12 {
        "foo"
    } else if k == 13 {
        "bar"
    } else if k == 14 {
        "baz"
    } else if k == 15 {
        "qux"
    } else {
        "\u{1F609}"
    }
}

/// `spaces` spaces, then `newlines` line breaks.
pub open spec fn separator(spaces: nat, newlines: nat) -> Seq<char> {
    Seq::new(spaces, |i: int| ' ') + Seq::new(newlines, |i: int| '\n')
}

/// The first `i` of `n` words `ws` (indices into [`word_list`]), each but
/// the last followed by its separator `seps`.
pub open spec fn text_upto(ws: Seq<int>, seps: Seq<(nat, nat)>, i: int, n: int) -> Seq<char>
    decreases i,
{
    if i <= 0 {
        Seq::empty()
    } else {
        text_upto(ws, seps, i - 1, n) + word_list()[ws[i - 1]] + (if i - 1 < n - 1 {
            separator(seps[i - 1].0, seps[i - 1].1)
        } else {
            Seq::empty()
        })
    }
}

/// Whether `text` is three to eight words of [`word_list`], separated by
/// one to three spaces and at most one line break.
pub open spec fn generated_text(text: Seq<char>) -> bool {
    exists|ws: Seq<int>, seps: Seq<(nat, nat)>|
        {
            &&& 3 <= ws.len() <= 8
            &&& seps.len() + 1 == ws.len()
            &&& forall|i: int| 0 <= i < ws.len() ==> 0 <= #[trigger] ws[i] < 17
            &&& forall|i: int|
                0 <= i < ws.len() - 1 ==> 1 <= (#[trigger] seps[i]).0 <= 3 && seps[i].1 <= 1
            &&& text == text_upto(ws, seps, ws.len() as int, ws.len() as int)
        }
}

fn push_repeated(text: &mut String, c: char, n: usize)
    ensures
        final(text)@ == old(text)@ + Seq::new(n as nat, |i: int| c),
{
    let mut k: usize = 0;
    while k < n
        invariant
            k <= n,
            text@ == old(text)@ + Seq::new(k as nat, |i: int| c),
        decreases n - k,
    {
        text.push(c);
        assert(old(text)@ + Seq::new((k + 1) as nat, |i: int| c) =~= old(text)@ + Seq::new(
            k as nat,
            |i: int| c,
        ).push(c));
        k = k + 1;
    }
}

/// The word indices as integers.
pub open spec fn words_view(ws: Seq<usize>) -> Seq<int> {
    ws.map_values(|k: usize| k as int)
}

/// The separators as pairs of counts.
pub open spec fn seps_view(seps: Seq<(usize, usize)>) -> Seq<(nat, nat)> {
    seps.map_values(|p: (usize, usize)| (p.0 as nat, p.1 as nat))
}

/// The text of the words `ws` (indices into [`word_list`]), each but the
/// last followed by its separator in `seps`: `seps[i]` is `(spaces,
/// line breaks)`.
pub fn build_text(ws: &Vec<usize>, seps: &Vec<(usize, usize)>) -> (r: Input)
    requires
        forall|i: int| 0 <= i < ws.len() ==> #[trigger] ws[i] < 17,
        seps.len() + 1 >= ws.len(),
    ensures
        r.text@ == text_upto(words_view(ws@), seps_view(seps@), ws.len() as int, ws.len() as int),
{
    let n = ws.len();
    let ghost wv = words_view(ws@);
    let ghost sv = seps_view(seps@);
    let mut text = String::new();
    let mut i: usize = 0;
    while i < n
        invariant
            i <= n == ws.len(),
            seps.len() + 1 >= n,
            wv == words_view(ws@),
            sv == seps_view(seps@),
            forall|j: int| 0 <= j < ws.len() ==> #[trigger] ws[j] < 17,
            text@ == text_upto(wv, sv, i as int, n as int),
        decreases n - i,
    {
        let w = word(ws[i]);
        text.append(w);
        if i < n - 1 {
            push_repeated(&mut text, ' ', seps[i].0);
            push_repeated(&mut text, '\n', seps[i].1);
            assert(text@ =~= text_upto(wv, sv, i as int, n as int) + word_list()[wv[i as int]]
                + separator(sv[i as int].0, sv[i as int].1));
        } else {
            assert(text@ =~= text_upto(wv, sv, i as int, n as int) + word_list()[wv[i as int]]
                + Seq::<char>::empty());
        }
        i = i + 1;
    }
    Input { text }
}

impl Input {
    /// A random text: three to eight words of [`word_list`], separated by
    /// one to three spaces and at most one line break; the drawn values go
    /// to [`build_text`].
    pub fn gn(rng: &mut StdRng) -> (r: Input)
        ensures
            generated_text(r.text@),
    {
        let num_words = random_inclusive(rng, 3, 8);
        let mut ws: Vec<usize> = Vec::new();
        let mut seps: Vec<(usize, usize)> = Vec::new();
        let mut i: usize = 0;
        while i < num_words
            invariant
                i <= num_words <= 8,
                3 <= num_words,
                ws.len() == i,
                seps.len() == if i == num_words { i - 1 } else { i as int },
                forall|j: int| 0 <= j < i ==> #[trigger] ws[j] < 17,
                forall|j: int|
                    0 <= j < seps.len() ==> 1 <= (#[trigger] seps[j]).0 <= 3 && seps[j].1 <= 1,
            decreases num_words - i,
        {
            let k = random_inclusive(rng, 0, 16);
            ws.push(k);
            if i < num_words - 1 {
                let spaces = random_inclusive(rng, 1, 3);
                let newlines = random_inclusive(rng, 0, 1);
                seps.push((spaces, newlines));
            }
            i = i + 1;
        }
        let r = build_text(&ws, &seps);
        proof {
            let wv = words_view(ws@);
            let sv = seps_view(seps@);
            assert forall|j: int| 0 <= j < wv.len() implies 0 <= #[trigger] wv[j] < 17 by {
                assert(ws[j] < 17);
            }
            assert forall|j: int| 0 <= j < wv.len() - 1 implies 1 <= (#[trigger] sv[j]).0 <= 3
                && sv[j].1 <= 1 by {
                assert(1 <= seps[j].0 <= 3);
            }
            assert(3 <= wv.len() <= 8);
            assert(sv.len() + 1 == wv.len());
            assert(r.text@ == text_upto(wv, sv, wv.len() as int, wv.len() as int));
            assert(generated_text(r.text@));
        }
        r
    }
}

} // verus!
