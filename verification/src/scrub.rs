//! Removal of personal or secret values from diagnostic text before it leaves the machine.
use crate::text::{
    ascii_lower_seq, ascii_lowercase, chars_of, contains_str, has_infix, is_white_space, split_chars,
    split_seq, text_of, char_vecs_view, white_space, lemma_split_nonempty,
};
use vstd::prelude::*;
use vstd::string::*;

verus! {

/// `str::lines`: the text split at `\n`, without an empty line after a final `\n`
/// (a `\r` before `\n` stays at the end of its line; it is white space for the word split).
pub open spec fn lines_of(s: Seq<char>) -> Seq<Seq<char>> {
    let parts = split_seq(s, '\n');
    if s.len() == 0 || s.last() == '\n' {
        parts.drop_last()
    } else {
        parts
    }
}

/// `str::split_whitespace`: the maximal runs of characters that are not white space.
pub open spec fn words_of(s: Seq<char>) -> Seq<Seq<char>>
    decreases s.len(),
{
    if s.len() == 0 {
        Seq::empty()
    } else {
        let before = words_of(s.drop_last());
        let c = s.last();
        if is_white_space(c) {
            before
        } else if s.len() >= 2 && !is_white_space(s[s.len() - 2]) {
            before.update(before.len() - 1, before.last().push(c))
        } else {
            before.push(seq![c])
        }
    }
}

/// A word whose lowercase form names a credential.
pub open spec fn sensitive_word(w: Seq<char>) -> bool {
    let l = ascii_lower_seq(w);
    ||| has_infix(l, "password"@)
    ||| has_infix(l, "passwd"@)
    ||| has_infix(l, "token"@)
    ||| has_infix(l, "authorization"@)
    ||| has_infix(l, "secret"@)
}

/// A word that looks like an e-mail address, a URL or a local path.
pub open spec fn locator_word(w: Seq<char>) -> bool {
    ||| has_infix(w, "@"@)
    ||| has_infix(w, "://"@)
    ||| has_infix(w, ":\\"@)
    ||| has_infix(w, ":/"@)
    ||| has_infix(w, "/home/"@)
    ||| has_infix(w, "/Users/"@)
}

/// Whether the word after `w` is hidden too: `w` names a credential without carrying its value.
pub open spec fn hides_next(w: Seq<char>) -> bool {
    sensitive_word(w) && !has_infix(w, "="@)
}

/// The replacement for a hidden word.
pub open spec fn filtered() -> Seq<char> {
    "[filtered]"@
}

/// Words as they are reported, given whether the first is hidden by the word before it;
/// also returns whether the word after the last is hidden.
pub open spec fn scrub_words(words: Seq<Seq<char>>, hide_next: bool) -> (Seq<Seq<char>>, bool)
    decreases words.len(),
{
    if words.len() == 0 {
        (Seq::empty(), hide_next)
    } else {
        let (before, h) = scrub_words(words.drop_last(), hide_next);
        let w = words.last();
        let shown = if h || sensitive_word(w) || locator_word(w) {
            filtered()
        } else {
            w
        };
        (before.push(shown), hides_next(w))
    }
}

/// `join(sep)`.
pub open spec fn join_with(parts: Seq<Seq<char>>, sep: char) -> Seq<char>
    decreases parts.len(),
{
    if parts.len() == 0 {
        Seq::empty()
    } else if parts.len() == 1 {
        parts[0]
    } else {
        join_with(parts.drop_last(), sep).push(sep) + parts.last()
    }
}

/// Lines as they are reported; the hiding carries from the end of one line to the next.
pub open spec fn scrub_lines(lines: Seq<Seq<char>>, hide_next: bool) -> (Seq<Seq<char>>, bool)
    decreases lines.len(),
{
    if lines.len() == 0 {
        (Seq::empty(), hide_next)
    } else {
        let (before, h) = scrub_lines(lines.drop_last(), hide_next);
        let (words, h2) = scrub_words(words_of(lines.last()), h);
        (before.push(join_with(words, ' ')), h2)
    }
}

/// The reported form of a diagnostic text.
pub open spec fn scrubbed(text: Seq<char>) -> Seq<char> {
    join_with(scrub_lines(lines_of(text), false).0, '\n')
}

proof fn lemma_words_last_open(s: Seq<char>)
    requires
        s.len() >= 1,
        !is_white_space(s.last()),
    ensures
        words_of(s).len() >= 1,
    decreases s.len(),
{
    if s.len() >= 2 && !is_white_space(s[s.len() - 2]) {
        assert(s.drop_last().last() == s[s.len() - 2]);
        lemma_words_last_open(s.drop_last());
    }
}

/// `str::split_whitespace` over characters, collected.
pub fn split_words(s: &[char]) -> (words: Vec<Vec<char>>)
    ensures
        char_vecs_view(words@) == words_of(s@),
{
    let mut words: Vec<Vec<char>> = Vec::new();
    let mut current: Vec<char> = Vec::new();
    let mut in_word = false;
    let mut i: usize = 0;
    while i < s.len()
        invariant
            i <= s@.len(),
            in_word == (i > 0 && !is_white_space(s@[i - 1])),
            in_word ==> char_vecs_view(words@).push(current@) == words_of(s@.take(i as int)),
            !in_word ==> char_vecs_view(words@) == words_of(s@.take(i as int)),
        decreases s.len() - i,
    {
        let c = s[i];
        let ghost t = s@.take(i + 1);
        proof {
            assert(t.drop_last() == s@.take(i as int));
            assert(t.last() == c);
            if i > 0 {
                assert(t[t.len() - 2] == s@[i - 1]);
            }
        }
        if white_space(c) {
            if in_word {
                let done = current;
                words.push(done);
                current = Vec::new();
            }
            in_word = false;
        } else {
            if in_word {
                proof {
                    lemma_words_last_open(s@.take(i as int));
                }
                current.push(c);
                assert(char_vecs_view(words@).push(current@) =~= words_of(t));
            } else {
                current = Vec::new();
                current.push(c);
                assert(char_vecs_view(words@).push(current@) =~= words_of(t));
            }
            in_word = true;
        }
        i += 1;
    }
    assert(s@.take(s@.len() as int) =~= s@);
    if in_word {
        words.push(current);
    }
    words
}

fn is_sensitive(word: &[char]) -> (r: bool)
    ensures
        r == sensitive_word(word@),
{
    let lower = ascii_lowercase(word);
    let l = lower.as_slice();
    contains_str(l, "password") || contains_str(l, "passwd") || contains_str(l, "token")
        || contains_str(l, "authorization") || contains_str(l, "secret")
}

fn is_locator(word: &[char]) -> (r: bool)
    ensures
        r == locator_word(word@),
{
    contains_str(word, "@") || contains_str(word, "://") || contains_str(word, ":\\")
        || contains_str(word, ":/") || contains_str(word, "/home/") || contains_str(word, "/Users/")
}

fn push_all(out: &mut Vec<char>, s: &[char])
    ensures
        final(out)@ == old(out)@ + s@,
{
    let mut i: usize = 0;
    while i < s.len()
        invariant
            i <= s@.len(),
            out@ == old(out)@ + s@.take(i as int),
        decreases s.len() - i,
    {
        out.push(s[i]);
        assert(s@.take(i + 1) == s@.take(i as int).push(s@[i as int]));
        i += 1;
    }
    assert(s@.take(s@.len() as int) =~= s@);
}

proof fn lemma_join_push(parts: Seq<Seq<char>>, p: Seq<char>, sep: char)
    ensures
        join_with(parts.push(p), sep) == if parts.len() == 0 {
            p
        } else {
            join_with(parts, sep).push(sep) + p
        },
{
    assert(parts.push(p).drop_last() =~= parts);
}

/// Replaces credential words (and the word after a credential name given without `=`),
/// e-mail addresses, URLs and local user paths by `[filtered]`; words are re-joined by single
/// spaces and lines by `\n`.
pub fn scrub(text: &str) -> (r: String)
    ensures
        r@ == scrubbed(text@),
{
    let chars = chars_of(text);
    let mut lines = split_chars(chars.as_slice(), '\n');
    proof {
        lemma_split_nonempty(chars@, '\n');
    }
    if chars.len() == 0 || chars[chars.len() - 1] == '\n' {
        lines.pop();
    }
    let ghost all_lines = lines_of(text@);
    assert(char_vecs_view(lines@) =~= all_lines);
    let mut out: Vec<char> = Vec::new();
    let mut hide_next = false;
    let mut k: usize = 0;
    while k < lines.len()
        invariant
            k <= lines@.len(),
            char_vecs_view(lines@) == all_lines,
            out@ == join_with(scrub_lines(all_lines.take(k as int), false).0, '\n'),
            hide_next == scrub_lines(all_lines.take(k as int), false).1,
            scrub_lines(all_lines.take(k as int), false).0.len() == k,
        decreases lines@.len() - k,
    {
        let ghost prev = scrub_lines(all_lines.take(k as int), false);
        assert(all_lines.take(k + 1).drop_last() =~= all_lines.take(k as int));
        assert(all_lines.take(k + 1).last() == lines@[k as int]@);
        if k > 0 {
            out.push('\n');
        }
        let ghost line_start = out@;
        let words = split_words(lines[k].as_slice());
        let ghost ws = words_of(lines@[k as int]@);
        let mut j: usize = 0;
        while j < words.len()
            invariant
                j <= words@.len(),
                char_vecs_view(words@) == ws,
                out@ == line_start + join_with(scrub_words(ws.take(j as int), prev.1).0, ' '),
                hide_next == scrub_words(ws.take(j as int), prev.1).1,
                scrub_words(ws.take(j as int), prev.1).0.len() == j,
            decreases words@.len() - j,
        {
            let word = words[j].as_slice();
            assert(ws.take(j + 1).drop_last() =~= ws.take(j as int));
            assert(ws.take(j + 1).last() == word@);
            let sensitive = is_sensitive(word);
            let hidden = hide_next || sensitive || is_locator(word);
            let has_value = contains_str(word, "=");
            hide_next = sensitive && !has_value;
            if j > 0 {
                out.push(' ');
            }
            proof {
                lemma_join_push(scrub_words(ws.take(j as int), prev.1).0, if hidden {
                    filtered()
                } else {
                    word@
                }, ' ');
            }
            if hidden {
                let f = chars_of("[filtered]");
                push_all(&mut out, f.as_slice());
            } else {
                push_all(&mut out, word);
            }
            j += 1;
        }
        assert(ws.take(ws.len() as int) =~= ws);
        proof {
            lemma_join_push(prev.0, join_with(scrub_words(ws, prev.1).0, ' '), '\n');
        }
        k += 1;
    }
    assert(all_lines.take(all_lines.len() as int) =~= all_lines);
    text_of(out.as_slice())
}

proof fn lemma_scrub_words_len(words: Seq<Seq<char>>, hide_next: bool)
    ensures
        scrub_words(words, hide_next).0.len() == words.len(),
    decreases words.len(),
{
    if words.len() > 0 {
        lemma_scrub_words_len(words.drop_last(), hide_next);
    }
}

/// A word is reported either as `[filtered]` or unchanged, and a word reported unchanged
/// names no credential and holds no e-mail address, URL or local path marker.
pub proof fn scrubbed_words_are_filtered_or_harmless(words: Seq<Seq<char>>, hide_next: bool, i: int)
    requires
        0 <= i < words.len(),
    ensures
        scrub_words(words, hide_next).0.len() == words.len(),
        scrub_words(words, hide_next).0[i] == filtered() || (scrub_words(words, hide_next).0[i]
            == words[i] && !sensitive_word(words[i]) && !locator_word(words[i])),
    decreases words.len(),
{
    lemma_scrub_words_len(words, hide_next);
    lemma_scrub_words_len(words.drop_last(), hide_next);
    if i < words.len() - 1 {
        scrubbed_words_are_filtered_or_harmless(words.drop_last(), hide_next, i);
    }
}

} // verus!
