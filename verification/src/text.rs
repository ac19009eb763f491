//! White space, words and lines of a text.
//!
//! Texts are modelled as sequences of characters. Words are the maximal runs
//! of characters that are not white space. Lines end with a line feed, or
//! with a carriage return directly followed by a line feed; the last line of
//! a text needs no ending.

use vstd::prelude::*;
use vstd::string::StringExecFns;

verus! {

/// Assumed of `String::push` of the standard library, not proved: the
/// string afterwards is the string before with `ch` appended at its end.
pub assume_specification[ String::push ](s: &mut String, ch: char)
    ensures
        final(s)@ == old(s)@.push(ch),
;

/// The characters with the Unicode property `White_Space`.
pub open spec fn is_white_space(c: char) -> bool {
    let n = c as u32;
    ||| 0x09 <= n <= 0x0D
    ||| n == 0x20
    ||| n == 0x85
    ||| n == 0xA0
    ||| n == 0x1680
    ||| 0x2000 <= n <= 0x200A
    ||| n == 0x2028
    ||| n == 0x2029
    ||| n == 0x202F
    ||| n == 0x205F
    ||| n == 0x3000
}

/// No character of `s` is white space.
pub open spec fn has_no_white_space(s: Seq<char>) -> bool {
    forall|i: int| 0 <= i < s.len() ==> !is_white_space(#[trigger] s[i])
}

/// Every character of `s` is white space.
pub open spec fn is_all_white_space(s: Seq<char>) -> bool {
    forall|i: int| 0 <= i < s.len() ==> is_white_space(#[trigger] s[i])
}

/// Length of the run of characters at the start of `s` that are not white space.
pub open spec fn word_len(s: Seq<char>) -> nat
    decreases s.len(),
{
    if s.len() == 0 || is_white_space(s[0]) {
        0
    } else {
        1 + word_len(s.drop_first())
    }
}

/// The words of `s` in order: its maximal runs of characters that are not
/// white space.
pub open spec fn words_of(s: Seq<char>) -> Seq<Seq<char>>
    decreases s.len(),
{
    if s.len() == 0 {
        Seq::empty()
    } else if is_white_space(s[0]) {
        words_of(s.drop_first())
    } else {
        let n = word_len(s);
        if n >= s.len() {
            seq![s]
        } else {
            seq![s.take(n as int)] + words_of(s.skip(n as int))
        }
    }
}

/// No character of `s` is a line feed.
pub open spec fn has_no_line_feed(s: Seq<char>) -> bool {
    forall|i: int| 0 <= i < s.len() ==> #[trigger] s[i] != '\n'
}

/// Position of the first line feed of `s`, or the length of `s` if it has none.
pub open spec fn line_feed_at(s: Seq<char>) -> nat
    decreases s.len(),
{
    if s.len() == 0 || s[0] == '\n' {
        0
    } else {
        1 + line_feed_at(s.drop_first())
    }
}

/// `line` without the carriage return at its end, if it has one.
pub open spec fn without_carriage_return(line: Seq<char>) -> Seq<char> {
    if line.len() > 0 && line.last() == '\r' {
        line.drop_last()
    } else {
        line
    }
}

/// The lines of `s` in order, without their endings. A text that ends with a
/// line ending has the same lines as the text without that ending.
pub open spec fn lines_of(s: Seq<char>) -> Seq<Seq<char>>
    decreases s.len(),
{
    if s.len() == 0 {
        Seq::empty()
    } else {
        let n = line_feed_at(s);
        if n >= s.len() {
            seq![s]
        } else {
            seq![without_carriage_return(s.take(n as int))] + lines_of(s.skip(n as int + 1))
        }
    }
}

/// The lines joined into one text, a line feed between each two.
pub open spec fn joined(lines: Seq<Seq<char>>) -> Seq<char>
    decreases lines.len(),
{
    if lines.len() == 0 {
        Seq::empty()
    } else if lines.len() == 1 {
        lines[0]
    } else {
        joined(lines.drop_last()) + seq!['\n'] + lines.last()
    }
}

/// Decides whether `c` is white space.
pub fn is_whitespace(c: char) -> (white: bool)
    ensures
        white == is_white_space(c),
{
    let n: u32 = c as u32;
    (0x09 <= n && n <= 0x0D) || n == 0x20 || n == 0x85 || n == 0xA0 || n == 0x1680 || (0x2000 <= n
        && n <= 0x200A) || n == 0x2028 || n == 0x2029 || n == 0x202F || n == 0x205F || n
        == 0x3000
}

/// A word that is followed by white space, or by nothing, ends there.
proof fn lemma_word_len_of_word(word: Seq<char>, rest: Seq<char>)
    requires
        has_no_white_space(word),
        rest.len() == 0 || is_white_space(rest[0]),
    ensures
        word_len(word + rest) == word.len(),
    decreases word.len(),
{
    let s = word + rest;
    if word.len() == 0 {
        assert(s =~= rest);
    } else {
        assert(s[0] == word[0]);
        assert(s.drop_first() =~= word.drop_first() + rest);
        assert forall|i: int| 0 <= i < word.drop_first().len() implies !is_white_space(
            #[trigger] word.drop_first()[i],
        ) by {
            assert(word.drop_first()[i] == word[i + 1]);
        }
        lemma_word_len_of_word(word.drop_first(), rest);
    }
}

/// The words of a text that begins with a word: that word, then the words
/// of what follows it.
pub proof fn lemma_words_after_word(word: Seq<char>, rest: Seq<char>)
    requires
        word.len() > 0,
        has_no_white_space(word),
        rest.len() == 0 || is_white_space(rest[0]),
    ensures
        words_of(word + rest) == seq![word] + words_of(rest),
{
    let s = word + rest;
    lemma_word_len_of_word(word, rest);
    assert(s[0] == word[0]);
    if rest.len() == 0 {
        assert(s =~= word);
        assert(words_of(rest) =~= Seq::<Seq<char>>::empty());
        assert(seq![word] + words_of(rest) =~= seq![word]);
    } else {
        assert(s.take(word.len() as int) =~= word);
        assert(s.skip(word.len() as int) =~= rest);
    }
}

/// White space at the start of a text separates nothing.
proof fn lemma_words_after_white_space(c: char, rest: Seq<char>)
    requires
        is_white_space(c),
    ensures
        words_of(seq![c] + rest) == words_of(rest),
{
    assert((seq![c] + rest).drop_first() =~= rest);
}

/// A run of white space at the start of a text adds no word.
pub proof fn lemma_words_after_gap(gap: Seq<char>, rest: Seq<char>)
    requires
        is_all_white_space(gap),
    ensures
        words_of(gap + rest) == words_of(rest),
    decreases gap.len(),
{
    if gap.len() == 0 {
        assert(gap + rest =~= rest);
    } else {
        let shorter = gap.drop_first();
        assert forall|i: int| 0 <= i < shorter.len() implies is_white_space(
            #[trigger] shorter[i],
        ) by {
            assert(shorter[i] == gap[i + 1]);
        }
        lemma_words_after_gap(shorter, rest);
        lemma_words_after_white_space(gap[0], shorter + rest);
        assert(seq![gap[0]] + (shorter + rest) =~= gap + rest);
    }
}

/// The run that `word_len` measures lies within the text and holds no
/// white space.
proof fn lemma_word_len_bounds(s: Seq<char>)
    ensures
        word_len(s) <= s.len(),
        has_no_white_space(s.take(word_len(s) as int)),
    decreases s.len(),
{
    if s.len() == 0 || is_white_space(s[0]) {
    } else {
        let rest = s.drop_first();
        lemma_word_len_bounds(rest);
        let n = word_len(s) as int;
        assert forall|i: int| 0 <= i < n implies !is_white_space(#[trigger] s.take(n)[i]) by {
            if i > 0 {
                assert(s.take(n)[i] == rest.take(n - 1)[i - 1]);
            }
        }
    }
}

/// Every word of a text holds a character and no white space.
pub proof fn lemma_words_are_words(s: Seq<char>)
    ensures
        forall|i: int|
            0 <= i < words_of(s).len() ==> (#[trigger] words_of(s)[i]).len() > 0
                && has_no_white_space(words_of(s)[i]),
    decreases s.len(),
{
    if s.len() == 0 {
        assert(words_of(s).len() == 0);
    } else if is_white_space(s[0]) {
        lemma_words_are_words(s.drop_first());
        assert(words_of(s) == words_of(s.drop_first()));
    } else {
        lemma_word_len_bounds(s);
        let n = word_len(s);
        let first = s.take(n as int);
        assert(first.len() > 0);
        if n >= s.len() {
            assert(first =~= s);
            assert(words_of(s) =~= seq![first]);
            assert(words_of(s)[0] == first);
        } else {
            let others = words_of(s.skip(n as int));
            lemma_words_are_words(s.skip(n as int));
            assert(words_of(s) =~= seq![first] + others);
            assert forall|i: int| 0 <= i < words_of(s).len() implies (#[trigger] words_of(
                s,
            )[i]).len() > 0 && has_no_white_space(words_of(s)[i]) by {
                if i > 0 {
                    assert(words_of(s)[i] == others[i - 1]);
                } else {
                    assert(words_of(s)[0] == first);
                }
            }
        }
    }
}

/// The words of `text`, in order.
pub fn split_whitespace(text: &str) -> (words: Vec<String>)
    ensures
        words.deep_view() == words_of(text@),
{
    let mut words: Vec<String> = Vec::new();
    let mut word = String::new();
    assert(word@ + text@.skip(0) =~= text@);
    assert(words.deep_view() =~= Seq::<Seq<char>>::empty());
    assert(words.deep_view() + words_of(text@) =~= words_of(text@));
    for c in it: text.chars()
        invariant
            it.seq() == text@,
            has_no_white_space(word@),
            words_of(text@) == words.deep_view() + words_of(
                word@ + text@.skip(it.index() as int),
            ),
    {
        let ghost i = it.index() as int;
        let ghost rest = text@.skip(i + 1);
        assert(text@.skip(i) =~= seq![c] + rest);
        if is_whitespace(c) {
            if !word.as_str().is_empty() {
                proof {
                    lemma_words_after_word(word@, text@.skip(i));
                    lemma_words_after_white_space(c, rest);
                }
                let ghost before = words.deep_view();
                let ghost done = word@;
                words.push(word);
                word = String::new();
                assert(words.deep_view() =~= before.push(done));
                assert(word@ + rest =~= rest);
                assert(before + (seq![done] + words_of(rest)) =~= before.push(done) + words_of(
                    rest,
                ));
            } else {
                proof {
                    lemma_words_after_white_space(c, rest);
                }
                assert(word@ + text@.skip(i) =~= text@.skip(i));
                assert(word@ + rest =~= rest);
            }
        } else {
            let ghost before = word@;
            word.push(c);
            assert(word@ + rest =~= before + text@.skip(i));
        }
    }
    assert(text@.skip(text@.len() as int) =~= Seq::<char>::empty());
    assert(word@ + Seq::<char>::empty() =~= word@);
    if !word.as_str().is_empty() {
        proof {
            lemma_words_after_word(word@, Seq::empty());
        }
        let ghost before = words.deep_view();
        let ghost done = word@;
        words.push(word);
        assert(words.deep_view() =~= before.push(done));
        assert(before + (seq![done] + words_of(Seq::<char>::empty())) =~= before.push(done));
    } else {
        assert(words.deep_view() + words_of(word@) =~= words.deep_view());
    }
    words
}

/// A piece of text without line feed, followed by a line feed, ends there.
proof fn lemma_line_feed_after(piece: Seq<char>, rest: Seq<char>)
    requires
        has_no_line_feed(piece),
    ensures
        line_feed_at(piece + seq!['\n'] + rest) == piece.len(),
    decreases piece.len(),
{
    let s = piece + seq!['\n'] + rest;
    if piece.len() == 0 {
        assert(s[0] == '\n');
    } else {
        assert(s[0] == piece[0]);
        assert(s.drop_first() =~= piece.drop_first() + seq!['\n'] + rest);
        let shorter = piece.drop_first();
        assert forall|i: int| 0 <= i < shorter.len() implies #[trigger] shorter[i] != '\n' by {
            assert(shorter[i] == piece[i + 1]);
        }
        lemma_line_feed_after(piece.drop_first(), rest);
    }
}

/// A text without line feed has its length as the position of the first one.
pub proof fn lemma_line_feed_missing(piece: Seq<char>)
    requires
        has_no_line_feed(piece),
    ensures
        line_feed_at(piece) == piece.len(),
    decreases piece.len(),
{
    if piece.len() > 0 {
        let shorter = piece.drop_first();
        assert forall|i: int| 0 <= i < shorter.len() implies #[trigger] shorter[i] != '\n' by {
            assert(shorter[i] == piece[i + 1]);
        }
        lemma_line_feed_missing(piece.drop_first());
    }
}

/// The lines of a text whose first line feed follows `piece`: that piece
/// without its carriage return, then the lines of what follows the line feed.
pub proof fn lemma_lines_after_line(piece: Seq<char>, rest: Seq<char>)
    requires
        has_no_line_feed(piece),
    ensures
        lines_of(piece + seq!['\n'] + rest) == seq![without_carriage_return(piece)] + lines_of(
            rest,
        ),
{
    let s = piece + seq!['\n'] + rest;
    lemma_line_feed_after(piece, rest);
    assert(s.take(piece.len() as int) =~= piece);
    assert(s.skip(piece.len() as int + 1) =~= rest);
}

/// The position that `line_feed_at` gives lies within the text, and no
/// line feed stands before it.
proof fn lemma_line_feed_at_bounds(s: Seq<char>)
    ensures
        line_feed_at(s) <= s.len(),
        has_no_line_feed(s.take(line_feed_at(s) as int)),
    decreases s.len(),
{
    if s.len() == 0 || s[0] == '\n' {
    } else {
        let rest = s.drop_first();
        lemma_line_feed_at_bounds(rest);
        let n = line_feed_at(s) as int;
        assert forall|i: int| 0 <= i < n implies #[trigger] s.take(n)[i] != '\n' by {
            if i > 0 {
                assert(s.take(n)[i] == rest.take(n - 1)[i - 1]);
            }
        }
    }
}

/// No line of a text holds a line feed.
pub proof fn lemma_lines_hold_no_line_feed(s: Seq<char>)
    ensures
        forall|i: int| 0 <= i < lines_of(s).len() ==> has_no_line_feed(#[trigger] lines_of(s)[i]),
    decreases s.len(),
{
    if s.len() > 0 {
        lemma_line_feed_at_bounds(s);
        let n = line_feed_at(s);
        if n >= s.len() {
            assert(s.take(n as int) =~= s);
            assert(lines_of(s) =~= seq![s]);
        } else {
            lemma_lines_hold_no_line_feed(s.skip(n as int + 1));
            let piece = s.take(n as int);
            let first = without_carriage_return(piece);
            let others = lines_of(s.skip(n as int + 1));
            assert forall|j: int| 0 <= j < first.len() implies #[trigger] first[j] != '\n' by {
                assert(first[j] == piece[j]);
            }
            assert forall|i: int| 0 <= i < lines_of(s).len() implies has_no_line_feed(
                #[trigger] lines_of(s)[i],
            ) by {
                if i > 0 {
                    assert(lines_of(s)[i] == others[i - 1]);
                } else {
                    assert(lines_of(s)[0] == first);
                }
            }
        }
    }
}

/// The lines of `text`, in order and without their endings.
pub fn vec_strings(text: &str) -> (lines: Vec<String>)
    ensures
        lines.deep_view() == lines_of(text@),
{
    let mut lines: Vec<String> = Vec::new();
    let mut line = String::new();
    // A carriage return that was read and is not yet part of `line`: it
    // belongs to the line only if no line feed follows it.
    let mut held: bool = false;
    assert(line@ + text@.skip(0) =~= text@);
    assert(lines.deep_view() =~= Seq::<Seq<char>>::empty());
    assert(lines.deep_view() + lines_of(text@) =~= lines_of(text@));
    for c in it: text.chars()
        invariant
            it.seq() == text@,
            has_no_line_feed(line@),
            !held ==> without_carriage_return(line@) == line@,
            lines_of(text@) == lines.deep_view() + lines_of(
                (if held {
                    line@.push('\r')
                } else {
                    line@
                }) + text@.skip(it.index() as int),
            ),
    {
        let ghost i = it.index() as int;
        let ghost rest = text@.skip(i + 1);
        let ghost piece = if held {
            line@.push('\r')
        } else {
            line@
        };
        assert(text@.skip(i) =~= seq![c] + rest);
        if c == '\n' {
            proof {
                assert(piece + text@.skip(i) =~= piece + seq!['\n'] + rest);
                lemma_lines_after_line(piece, rest);
                assert(without_carriage_return(piece) =~= line@);
            }
            let ghost before = lines.deep_view();
            let ghost done = line@;
            lines.push(line);
            line = String::new();
            held = false;
            assert(lines.deep_view() =~= before.push(done));
            assert(line@ + rest =~= rest);
            assert(before + (seq![done] + lines_of(rest)) =~= before.push(done) + lines_of(rest));
        } else {
            if held {
                line.push('\r');
            }
            if c == '\r' {
                held = true;
                assert(line@.push('\r') + rest =~= piece + text@.skip(i));
            } else {
                held = false;
                line.push(c);
                assert(line@ + rest =~= piece + text@.skip(i));
            }
        }
    }
    assert(text@.skip(text@.len() as int) =~= Seq::<char>::empty());
    if held {
        line.push('\r');
    }
    assert(line@ + Seq::<char>::empty() =~= line@);
    if !line.as_str().is_empty() {
        proof {
            lemma_line_feed_missing(line@);
        }
        let ghost before = lines.deep_view();
        let ghost done = line@;
        lines.push(line);
        assert(lines.deep_view() =~= before.push(done));
        assert(before + seq![done] =~= before.push(done));
    } else {
        assert(lines.deep_view() + lines_of(line@) =~= lines.deep_view());
    }
    lines
}

/// Joins `lines` into one text, with a line feed between each two.
pub fn join_lines(lines: &Vec<String>) -> (text: String)
    ensures
        text@ == joined(lines.deep_view()),
{
    let mut text = String::new();
    let mut i: usize = 0;
    while i < lines.len()
        invariant
            i <= lines.len(),
            text@ == joined(lines.deep_view().take(i as int)),
        decreases lines.len() - i,
    {
        let ghost upto = lines.deep_view().take(i as int + 1);
        assert(upto.drop_last() =~= lines.deep_view().take(i as int));
        assert(upto.last() == lines[i as int]@);
        if i > 0 {
            text.push('\n');
        }
        text.append(lines[i].as_str());
        assert(text@ =~= joined(upto));
        i += 1;
    }
    assert(lines.deep_view().take(lines.len() as int) =~= lines.deep_view());
    text
}

} // verus!
