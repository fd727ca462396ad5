//! Pinyin tone handling for card text: converting tone-marked syllables to
//! tone-number form, and formatting a word's pinyin field.

use crate::strutil::{join_sep, lemma_join_sep_take_step, push_char, views_of};
use vstd::prelude::*;
use vstd::string::*;

verus! {

/// The tone (one through four) a tone-marked vowel carries; zero for every
/// other character.
pub open spec fn tone_of_vowel(c: char) -> int {
    if c == 'ā' || c == 'ē' || c == 'ī' || c == 'ō' || c == 'ū' || c == 'ǖ' {
        1
    } else if c == 'á' || c == 'é' || c == 'í' || c == 'ó' || c == 'ú' || c == 'ǘ' {
        2
    } else if c == 'ǎ' || c == 'ě' || c == 'ǐ' || c == 'ǒ' || c == 'ǔ' || c == 'ǚ' {
        3
    } else if c == 'à' || c == 'è' || c == 'ì' || c == 'ò' || c == 'ù' || c == 'ǜ' {
        4
    } else {
        0
    }
}

/// The bare vowel under a tone mark; any other character unchanged.
pub open spec fn base_of_vowel(c: char) -> char {
    if c == 'ā' || c == 'á' || c == 'ǎ' || c == 'à' {
        'a'
    } else if c == 'ē' || c == 'é' || c == 'ě' || c == 'è' {
        'e'
    } else if c == 'ī' || c == 'í' || c == 'ǐ' || c == 'ì' {
        'i'
    } else if c == 'ō' || c == 'ó' || c == 'ǒ' || c == 'ò' {
        'o'
    } else if c == 'ū' || c == 'ú' || c == 'ǔ' || c == 'ù' {
        'u'
    } else if c == 'ǖ' || c == 'ǘ' || c == 'ǚ' || c == 'ǜ' {
        'ü'
    } else {
        c
    }
}

/// The tone and bare vowel of one character.
fn vowel_info(c: char) -> (r: (u8, char))
    ensures
        r.0 as int == tone_of_vowel(c),
        r.1 == base_of_vowel(c),
{
    match c {
        'ā' => (1, 'a'),
        'ē' => (1, 'e'),
        'ī' => (1, 'i'),
        'ō' => (1, 'o'),
        'ū' => (1, 'u'),
        'ǖ' => (1, 'ü'),
        'á' => (2, 'a'),
        'é' => (2, 'e'),
        'í' => (2, 'i'),
        'ó' => (2, 'o'),
        'ú' => (2, 'u'),
        'ǘ' => (2, 'ü'),
        'ǎ' => (3, 'a'),
        'ě' => (3, 'e'),
        'ǐ' => (3, 'i'),
        'ǒ' => (3, 'o'),
        'ǔ' => (3, 'u'),
        'ǚ' => (3, 'ü'),
        'à' => (4, 'a'),
        'è' => (4, 'e'),
        'ì' => (4, 'i'),
        'ò' => (4, 'o'),
        'ù' => (4, 'u'),
        'ǜ' => (4, 'ü'),
        _ => (0, c),
    }
}

/// The tone of a syllable: the tone of its first tone-marked vowel, or the
/// neutral tone five when none is marked.
pub open spec fn syllable_tone(s: Seq<char>) -> int
    decreases s.len(),
{
    if s.len() == 0 {
        5
    } else if tone_of_vowel(s[0]) != 0 {
        tone_of_vowel(s[0])
    } else {
        syllable_tone(s.drop_first())
    }
}

/// The syllable with every tone mark removed.
pub open spec fn strip_tones(s: Seq<char>) -> Seq<char> {
    s.map_values(|c: char| base_of_vowel(c))
}

/// The digit character of a tone in one through five.
pub open spec fn tone_digit(t: int) -> char {
    if t == 1 {
        '1'
    } else if t == 2 {
        '2'
    } else if t == 3 {
        '3'
    } else if t == 4 {
        '4'
    } else {
        '5'
    }
}

/// The tone-number form of one tone-marked syllable: the bare letters with
/// the tone digit appended.
pub open spec fn tone_number_of(s: Seq<char>) -> Seq<char> {
    strip_tones(s).push(tone_digit(syllable_tone(s)))
}

/// Converts tone-marked pinyin syllables into tone-number form: each
/// syllable's tone marks are removed and its tone digit is appended, the
/// neutral tone written as five.
pub fn tone_numbers(syllables: &Vec<String>) -> (r: Vec<String>)
    ensures
        views_of(r@) == views_of(syllables@).map_values(|s: Seq<char>| tone_number_of(s)),
{
    let mut r: Vec<String> = Vec::new();
    let n = syllables.len();
    for i in 0..n
        invariant
            n == syllables@.len(),
            r@.len() == i,
            forall|j: int| 0 <= j < i ==> (#[trigger] r@[j])@ == tone_number_of(syllables@[j]@),
    {
        let s: &String = &syllables[i];
        let slen = s.as_str().unicode_len();
        let mut num: u8 = 5;
        let mut found: bool = false;
        proof {
            assert(s@.skip(0) =~= s@);
        }
        for k in 0..slen
            invariant
                slen == s@.len(),
                !found ==> num == 5 && syllable_tone(s@.skip(k as int)) == syllable_tone(s@),
                found ==> num as int == syllable_tone(s@),
        {
            if !found {
                let (t, _) = vowel_info(s.as_str().get_char(k));
                proof {
                    assert(s@.skip(k as int)[0] == s@[k as int]);
                    assert(s@.skip(k as int).drop_first() =~= s@.skip(k + 1));
                }
                if t != 0 {
                    num = t;
                    found = true;
                }
            }
        }
        proof {
            if !found {
                assert(s@.skip(slen as int) =~= Seq::<char>::empty());
            }
        }
        let mut out: String = String::new();
        for k in 0..slen
            invariant
                slen == s@.len(),
                out@ == strip_tones(s@.take(k as int)),
        {
            let (_, base) = vowel_info(s.as_str().get_char(k));
            push_char(&mut out, base);
            proof {
                assert(strip_tones(s@.take(k + 1)) =~= strip_tones(s@.take(k as int)).push(
                    base_of_vowel(s@[k as int]),
                ));
            }
        }
        proof {
            assert(s@.take(slen as int) =~= s@);
        }
        let digit: char = match num {
            1 => '1',
            2 => '2',
            3 => '3',
            4 => '4',
            _ => '5',
        };
        push_char(&mut out, digit);
        r.push(out);
    }
    proof {
        assert(views_of(r@) =~= views_of(syllables@).map_values(|s: Seq<char>| tone_number_of(s)));
    }
    r
}

/// What the pinyin lookup returns for a word: one tone-number syllable per
/// character that has a pinyin reading, from the crate's static data, so a
/// function of the word alone.
pub uninterp spec fn pinyin_tones_of(word: Seq<char>) -> Seq<Seq<char>>;

/// Relies on `pinyin::to_pinyin_vec` with `Pinyin::with_tone_num_end`: one
/// tone-number syllable per character with a reading, from static data.
#[verifier::external_body]
fn word_pinyin_tones(word: &str) -> (r: Vec<String>)
    ensures
        views_of(r@) == pinyin_tones_of(word@),
{
    pinyin::to_pinyin_vec(word, pinyin::Pinyin::with_tone_num_end)
        .into_iter()
        .map(|s| s.to_string())
        .collect()
}

/// A syllable with its tone digit guaranteed: left alone when it already
/// ends in a digit of one through four, else with five appended.
pub open spec fn tone_fixed(s: Seq<char>) -> Seq<char> {
    if s.len() > 0 && ('1' <= s.last() && s.last() <= '4') {
        s
    } else {
        s.push('5')
    }
}

/// The pinyin field text for a word and its syllables: the word followed by
/// the space-joined syllables in brackets.
pub open spec fn pinyin_field(word: Seq<char>, tones: Seq<Seq<char>>) -> Seq<char> {
    word + seq!['['] + join_sep(tones, seq![' ']) + seq![']']
}

/// Joins ready syllables into the bracketed pinyin field, as used when the
/// syllables were read from a dictionary definition.
pub fn format_pinyin_annotation(word: &str, syllables: &Vec<String>) -> (r: String)
    ensures
        r@ == pinyin_field(word@, views_of(syllables@)),
{
    let mut r: String = word.to_owned();
    push_char(&mut r, '[');
    let n = syllables.len();
    for i in 0..n
        invariant
            n == syllables@.len(),
            r@ == word@ + seq!['['] + join_sep(views_of(syllables@.take(i as int)), seq![' ']),
    {
        if i > 0 {
            push_char(&mut r, ' ');
        }
        r.append(syllables[i].as_str());
        proof {
            lemma_join_sep_take_step(views_of(syllables@), seq![' '], i as int);
            assert(views_of(syllables@.take(i as int)) =~= views_of(syllables@).take(i as int));
            assert(views_of(syllables@.take(i + 1)) =~= views_of(syllables@).take(i + 1));
        }
    }
    proof {
        assert(views_of(syllables@.take(n as int)) =~= views_of(syllables@));
    }
    push_char(&mut r, ']');
    r
}

/// Builds the pinyin field for a word from the pinyin crate's readings:
/// every syllable is given its tone digit (five when none is marked) and
/// the result is bracketed after the word.
pub fn format_word_pinyin(word: &str) -> (r: String)
    ensures
        r@ == pinyin_field(
            word@,
            pinyin_tones_of(word@).map_values(|s: Seq<char>| tone_fixed(s)),
        ),
{
    let raw = word_pinyin_tones(word);
    let mut fixed: Vec<String> = Vec::new();
    let n = raw.len();
    for i in 0..n
        invariant
            n == raw@.len(),
            views_of(raw@) == pinyin_tones_of(word@),
            fixed@.len() == i,
            forall|j: int| 0 <= j < i ==> (#[trigger] fixed@[j])@ == tone_fixed(raw@[j]@),
    {
        let s: &String = &raw[i];
        let slen = s.as_str().unicode_len();
        let mut keep = false;
        if slen > 0 {
            let last = s.as_str().get_char(slen - 1);
            let u = last as u32;
            keep = 0x31 <= u && u <= 0x34;
            proof {
                assert(('1' <= s@.last() && s@.last() <= '4') == (0x31 <= s@.last() as u32
                    && s@.last() as u32 <= 0x34));
            }
        }
        if keep {
            fixed.push(s.clone());
        } else {
            let mut t = s.clone();
            push_char(&mut t, '5');
            fixed.push(t);
        }
    }
    proof {
        assert(views_of(fixed@) =~= pinyin_tones_of(word@).map_values(
            |s: Seq<char>| tone_fixed(s),
        ));
    }
    format_pinyin_annotation(word, &fixed)
}

} // verus!
