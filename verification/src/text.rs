//! Text processing around cards: parsing a words file into word/sentence
//! pairs, assembling the meaning field of a card, and trimming the leading
//! item number off a fetched example sentence.

use crate::dict::{entry_views, DbDictEntry, EntryModel};
use crate::strutil::{join_sep, lemma_join_sep_take_step, push_char, views_of};
use vstd::prelude::*;
use vstd::string::*;

verus! {

/// The text with every space removed.
pub open spec fn strip_spaces(s: Seq<char>) -> Seq<char> {
    s.filter(|c: char| c != ' ')
}

/// How many characters the leading item number of a fetched sentence takes,
/// counted on the space-stripped text: a bare digit one takes one character
/// when the raw text starts with a digit one and a space, two otherwise
/// (digit plus punctuation); the CJK numeral one takes two; an opening
/// parenthesis takes three.
pub open spec fn spec_trim_offset(text: Seq<char>) -> int {
    let s = strip_spaces(text);
    if s[0] == '1' {
        if text.len() >= 2 && text[0] == '1' && text[1] == ' ' {
            1
        } else {
            2
        }
    } else if s[0] == '一' {
        2
    } else {
        3
    }
}

/// Trims the leading item number off an example sentence: all spaces are
/// removed, then the number's characters are dropped.
pub fn trim_number(text: String) -> (r: String)
    requires
        strip_spaces(text@).len() > 0,
        strip_spaces(text@)[0] == '1' || strip_spaces(text@)[0] == '一' || strip_spaces(
            text@,
        )[0] == '(' || strip_spaces(text@)[0] == '（',
        spec_trim_offset(text@) <= strip_spaces(text@).len(),
    ensures
        r@ == strip_spaces(text@).skip(spec_trim_offset(text@)),
{
    let n = text.as_str().unicode_len();
    let mut stripped: String = String::new();
    proof {
        assert(text@.take(0) =~= Seq::<char>::empty());
        reveal(Seq::filter);
    }
    for i in 0..n
        invariant
            n == text@.len(),
            stripped@ == strip_spaces(text@.take(i as int)),
    {
        let c = text.as_str().get_char(i);
        let ghost s0 = stripped@;
        if c != ' ' {
            push_char(&mut stripped, c);
        }
        proof {
            reveal(Seq::filter);
            let t1 = text@.take(i + 1);
            assert(t1.drop_last() =~= text@.take(i as int));
            assert(t1.last() == text@[i as int]);
        }
    }
    proof {
        assert(text@.take(n as int) =~= text@);
    }
    let m = stripped.as_str().unicode_len();
    let first = stripped.as_str().get_char(0);
    let offset: usize = if first == '1' {
        let one_space = if n >= 2 {
            text.as_str().get_char(0) == '1' && text.as_str().get_char(1) == ' '
        } else {
            false
        };
        if one_space {
            1
        } else {
            2
        }
    } else if first == '一' {
        2
    } else {
        3
    };
    let mut r: String = String::new();
    proof {
        assert(stripped@.subrange(offset as int, offset as int) =~= Seq::<char>::empty());
    }
    for i in offset..m
        invariant
            m == stripped@.len(),
            offset <= i,
            r@ == stripped@.subrange(offset as int, i as int),
    {
        push_char(&mut r, stripped.as_str().get_char(i));
        proof {
            assert(stripped@.subrange(offset as int, i + 1) =~= stripped@.subrange(
                offset as int,
                i as int,
            ).push(stripped@[i as int]));
        }
    }
    proof {
        assert(stripped@.subrange(offset as int, m as int) =~= stripped@.skip(offset as int));
    }
    r
}

/// The index of the first occurrence of `c`, if any.
pub open spec fn find_char(s: Seq<char>, c: char) -> Option<int>
    decreases s.len(),
{
    if s.len() == 0 {
        Option::None
    } else if s[0] == c {
        Option::Some(0)
    } else {
        match find_char(s.drop_first(), c) {
            Option::Some(i) => Option::Some(i + 1),
            Option::None => Option::None,
        }
    }
}

pub proof fn lemma_find_char_at(s: Seq<char>, c: char, i: int)
    requires
        0 <= i < s.len(),
        s[i] == c,
        forall|j: int| 0 <= j < i ==> s[j] != c,
    ensures
        find_char(s, c) == Option::Some(i),
    decreases i,
{
    if i > 0 {
        assert(s.drop_first()[i - 1] == s[i]);
        assert forall|j: int| 0 <= j < i - 1 implies s.drop_first()[j] != c by {
            assert(s.drop_first()[j] == s[j + 1]);
        }
        lemma_find_char_at(s.drop_first(), c, i - 1);
    }
}

pub proof fn lemma_find_char_absent(s: Seq<char>, c: char)
    requires
        forall|j: int| 0 <= j < s.len() ==> s[j] != c,
    ensures
        find_char(s, c) == Option::<int>::None,
    decreases s.len(),
{
    if s.len() > 0 {
        assert forall|j: int| 0 <= j < s.drop_first().len() implies s.drop_first()[j] != c by {
            assert(s.drop_first()[j] == s[j + 1]);
        }
        lemma_find_char_absent(s.drop_first(), c);
    }
}

pub proof fn lemma_find_char_props(s: Seq<char>, c: char)
    ensures
        match find_char(s, c) {
            Option::Some(i) => 0 <= i < s.len() && s[i] == c,
            Option::None => true,
        },
    decreases s.len(),
{
    if s.len() > 0 && s[0] != c {
        lemma_find_char_props(s.drop_first(), c);
        match find_char(s.drop_first(), c) {
            Option::Some(i) => {
                assert(s.drop_first()[i] == s[i + 1]);
            },
            Option::None => {},
        }
    }
}

/// A line with one trailing carriage return removed: a line ending counts
/// whether it was a bare newline or a carriage return and newline.
pub open spec fn strip_cr(s: Seq<char>) -> Seq<char> {
    if s.len() > 0 && s.last() == '\r' {
        s.drop_last()
    } else {
        s
    }
}

/// The lines of a text: split at newlines, each line's trailing carriage
/// return removed, and no final empty line after a trailing newline.
pub open spec fn split_lines(s: Seq<char>) -> Seq<Seq<char>>
    decreases s.len(),
    via split_lines_decreases
{
    if s.len() == 0 {
        Seq::empty()
    } else {
        match find_char(s, '\n') {
            Option::Some(i) => seq![strip_cr(s.take(i))] + split_lines(s.skip(i + 1)),
            Option::None => seq![s],
        }
    }
}

#[via_fn]
proof fn split_lines_decreases(s: Seq<char>) {
    if s.len() > 0 {
        lemma_find_char_props(s, '\n');
    }
}

/// A line split into word and sentence at its first space; a line without a
/// space is all word.
pub open spec fn word_sentence(line: Seq<char>) -> (Seq<char>, Seq<char>) {
    match find_char(line, ' ') {
        Option::Some(i) => (line.take(i), line.skip(i + 1)),
        Option::None => (line, Seq::empty()),
    }
}

/// The views of a sequence of string pairs.
pub open spec fn pair_views(s: Seq<(String, String)>) -> Seq<(Seq<char>, Seq<char>)> {
    s.map_values(|p: (String, String)| (p.0@, p.1@))
}

/// Splits one line into its word and sentence parts.
fn split_word_sentence(text: &str, start: usize, end: usize) -> (r: (String, String))
    requires
        start <= end <= text@.len(),
    ensures
        (r.0@, r.1@) == word_sentence(text@.subrange(start as int, end as int)),
{
    let ghost line = text@.subrange(start as int, end as int);
    for k in start..end
        invariant
            start <= k <= end <= text@.len(),
            line == text@.subrange(start as int, end as int),
            forall|j: int| 0 <= j < k - start ==> line[j] != ' ',
    {
        if text.get_char(k) == ' ' {
            proof {
                assert(line[k - start] == ' ');
                lemma_find_char_at(line, ' ', k - start);
            }
            let word = text.substring_char(start, k).to_owned();
            let sentence = text.substring_char(k + 1, end).to_owned();
            proof {
                assert(word@ =~= line.take(k - start));
                assert(sentence@ =~= line.skip(k - start + 1));
            }
            return (word, sentence);
        }
    }
    proof {
        lemma_find_char_absent(line, ' ');
    }
    let word = text.substring_char(start, end).to_owned();
    proof {
        assert(word@ =~= line);
    }
    (word, String::new())
}

/// Parses a words file: one entry per line, the word before the first
/// space, the rest of the line the sentence; a line without a space is all
/// word with an empty sentence.
pub fn parse_words_file(text: &str) -> (r: Vec<(String, String)>)
    ensures
        pair_views(r@) == split_lines(text@).map_values(|l: Seq<char>| word_sentence(l)),
{
    let n = text.unicode_len();
    let mut r: Vec<(String, String)> = Vec::new();
    let mut pos: usize = 0;
    proof {
        assert(text@.skip(0) =~= text@);
    }
    while pos < n
        invariant
            n == text@.len(),
            pos <= n,
            pair_views(r@).len() == r@.len(),
            split_lines(text@).map_values(|l: Seq<char>| word_sentence(l)) =~= pair_views(r@)
                + split_lines(text@.skip(pos as int)).map_values(|l: Seq<char>| word_sentence(l)),
        decreases n - pos,
    {
        let ghost rest = text@.skip(pos as int);
        // find the end of the current line
        let mut k: usize = pos;
        let mut newline_at: Option<usize> = None;
        while k < n
            invariant_except_break
                newline_at is None,
            invariant
                pos <= k <= n,
                n == text@.len(),
                rest == text@.skip(pos as int),
                forall|j: int| 0 <= j < k - pos ==> rest[j] != '\n',
            ensures
                pos <= k <= n,
                n == text@.len(),
                rest == text@.skip(pos as int),
                forall|j: int| 0 <= j < k - pos ==> rest[j] != '\n',
                match newline_at {
                    Some(nl) => nl == k && k < n && rest[k - pos] == '\n',
                    None => k == n,
                },
            decreases n - k,
        {
            if text.get_char(k) == '\n' {
                newline_at = Some(k);
                proof {
                    assert(rest[k - pos] == text@[k as int]);
                }
                break ;
            }
            k = k + 1;
        }
        let ghost r0 = pair_views(r@);
        match newline_at {
            Some(nl) => {
                proof {
                    assert(rest[nl - pos] == '\n');
                    lemma_find_char_at(rest, '\n', nl - pos);
                }
                // strip one carriage return before the newline
                let line_end = if nl > pos && text.get_char(nl - 1) == '\r' {
                    nl - 1
                } else {
                    nl
                };
                proof {
                    assert(rest.take(nl - pos) =~= text@.subrange(pos as int, nl as int));
                    assert(strip_cr(rest.take(nl - pos)) =~= text@.subrange(
                        pos as int,
                        line_end as int,
                    ));
                }
                let pair = split_word_sentence(text, pos, line_end);
                r.push(pair);
                proof {
                    assert(split_lines(rest) == seq![strip_cr(rest.take(nl - pos))] + split_lines(
                        rest.skip(nl - pos + 1),
                    ));
                    assert(rest.skip(nl - pos + 1) =~= text@.skip(nl + 1));
                    assert(pair_views(r@) =~= r0.push(
                        word_sentence(text@.subrange(pos as int, line_end as int)),
                    ));
                    assert(split_lines(text@).map_values(|l: Seq<char>| word_sentence(l))
                        =~= pair_views(r@) + split_lines(text@.skip(nl + 1)).map_values(
                        |l: Seq<char>| word_sentence(l),
                    ));
                }
                pos = nl + 1;
            },
            None => {
                proof {
                    lemma_find_char_absent(rest, '\n');
                    assert(split_lines(rest) == seq![rest]);
                }
                let pair = split_word_sentence(text, pos, n);
                r.push(pair);
                proof {
                    assert(rest =~= text@.subrange(pos as int, n as int));
                    assert(pair_views(r@) =~= r0.push(word_sentence(rest)));
                    assert(text@.skip(n as int) =~= Seq::<char>::empty());
                    assert(split_lines(Seq::<char>::empty()) =~= Seq::<Seq<char>>::empty());
                    assert(split_lines(text@).map_values(|l: Seq<char>| word_sentence(l))
                        =~= pair_views(r@) + split_lines(text@.skip(n as int)).map_values(
                        |l: Seq<char>| word_sentence(l),
                    ));
                }
                pos = n;
            },
        }
    }
    proof {
        assert(text@.skip(n as int) =~= Seq::<char>::empty());
        assert(split_lines(Seq::<char>::empty()) =~= Seq::<Seq<char>>::empty());
        assert(split_lines(text@).map_values(|l: Seq<char>| word_sentence(l)) =~= pair_views(r@));
    }
    r
}

/// A meaning with every newline replaced by an HTML line break.
pub open spec fn replace_newlines(s: Seq<char>) -> Seq<char>
    decreases s.len(),
{
    if s.len() == 0 {
        Seq::empty()
    } else if s[0] == '\n' {
        seq!['<', 'b', 'r', '>'] + replace_newlines(s.drop_first())
    } else {
        seq![s[0]] + replace_newlines(s.drop_first())
    }
}

pub proof fn lemma_replace_newlines_append(a: Seq<char>, b: Seq<char>)
    ensures
        replace_newlines(a + b) == replace_newlines(a) + replace_newlines(b),
    decreases a.len(),
{
    if a.len() == 0 {
        assert(a + b =~= b);
        assert(replace_newlines(a) + replace_newlines(b) =~= replace_newlines(b));
    } else {
        assert((a + b).drop_first() =~= a.drop_first() + b);
        lemma_replace_newlines_append(a.drop_first(), b);
        assert((a + b)[0] == a[0]);
        assert(replace_newlines(a + b) =~= replace_newlines(a) + replace_newlines(b));
    }
}

/// The meaning field of a card: each entry's meaning with newlines turned
/// into HTML line breaks, the meanings joined by double line breaks.
pub open spec fn meanings_joined(entries: Seq<EntryModel>) -> Seq<char> {
    join_sep(
        entries.map_values(|e: EntryModel| replace_newlines(e.meaning)),
        seq!['<', 'b', 'r', '>', '<', 'b', 'r', '>'],
    )
}

/// One meaning with newlines replaced by HTML line breaks.
fn replace_newlines_exec(s: &str) -> (r: String)
    ensures
        r@ == replace_newlines(s@),
{
    let n = s.unicode_len();
    let mut r: String = String::new();
    proof {
        assert(s@.take(0) =~= Seq::<char>::empty());
        assert(replace_newlines(Seq::<char>::empty()) =~= Seq::<char>::empty());
    }
    for i in 0..n
        invariant
            n == s@.len(),
            r@ == replace_newlines(s@.take(i as int)),
    {
        let c = s.get_char(i);
        if c == '\n' {
            push_char(&mut r, '<');
            push_char(&mut r, 'b');
            push_char(&mut r, 'r');
            push_char(&mut r, '>');
        } else {
            push_char(&mut r, c);
        }
        proof {
            assert(s@.take(i + 1) =~= s@.take(i as int) + seq![s@[i as int]]);
            lemma_replace_newlines_append(s@.take(i as int), seq![s@[i as int]]);
            assert(seq![s@[i as int]].drop_first() =~= Seq::<char>::empty());
            assert(replace_newlines(Seq::<char>::empty()) =~= Seq::<char>::empty());
            if s@[i as int] == '\n' {
                assert(replace_newlines(seq![s@[i as int]]) =~= seq!['<', 'b', 'r', '>']);
            } else {
                assert(replace_newlines(seq![s@[i as int]]) =~= seq![s@[i as int]]);
            }
        }
    }
    proof {
        assert(s@.take(n as int) =~= s@);
    }
    r
}

/// Assembles the meaning field of a card from looked-up entries: each
/// entry's meaning, newlines as HTML line breaks, joined by blank lines.
pub fn join_meanings(defs: &Vec<DbDictEntry>) -> (r: String)
    ensures
        r@ == meanings_joined(entry_views(defs@)),
{
    let ghost repl = entry_views(defs@).map_values(|e: EntryModel| replace_newlines(e.meaning));
    let ghost sep: Seq<char> = seq!['<', 'b', 'r', '>', '<', 'b', 'r', '>'];
    let mut r: String = String::new();
    let n = defs.len();
    proof {
        assert(repl.take(0) =~= Seq::<Seq<char>>::empty());
        assert(join_sep(repl.take(0), sep) =~= Seq::<char>::empty());
    }
    for i in 0..n
        invariant
            n == defs@.len(),
            repl == entry_views(defs@).map_values(|e: EntryModel| replace_newlines(e.meaning)),
            sep == seq!['<', 'b', 'r', '>', '<', 'b', 'r', '>'],
            r@ == join_sep(repl.take(i as int), sep),
    {
        if i > 0 {
            push_char(&mut r, '<');
            push_char(&mut r, 'b');
            push_char(&mut r, 'r');
            push_char(&mut r, '>');
            push_char(&mut r, '<');
            push_char(&mut r, 'b');
            push_char(&mut r, 'r');
            push_char(&mut r, '>');
        }
        let piece = replace_newlines_exec(defs[i].meaning.as_str());
        r.append(piece.as_str());
        proof {
            lemma_join_sep_take_step(repl, sep, i as int);
            assert(repl[i as int] == replace_newlines(defs@[i as int]@.meaning));
            if i > 0 {
                assert(r@ =~= join_sep(repl.take(i as int), sep) + sep + repl[i as int]);
            } else {
                assert(r@ =~= repl[0]);
            }
        }
    }
    proof {
        assert(repl.take(n as int) =~= repl);
    }
    r
}

} // verus!
