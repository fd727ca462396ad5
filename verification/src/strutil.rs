//! Character-level string helpers, specified against `Seq<char>` views.

use vstd::prelude::*;
use vstd::string::*;

verus! {

/// The views of a sequence of strings.
pub open spec fn views_of(s: Seq<String>) -> Seq<Seq<char>> {
    s.map_values(|x: String| x@)
}

pub proof fn lemma_views_of_push(s: Seq<String>, x: String)
    ensures
        views_of(s.push(x)) =~= views_of(s).push(x@),
{
}

/// True when `suffix` ends `s`, viewed as character sequences.
pub open spec fn spec_ends_with(s: Seq<char>, suffix: Seq<char>) -> bool {
    suffix.len() <= s.len() && s.subrange(s.len() - suffix.len(), s.len() as int) == suffix
}

/// Character-by-character equality of two string slices.
pub fn str_eq(a: &str, b: &str) -> (r: bool)
    ensures
        r == (a@ == b@),
{
    let na = a.unicode_len();
    let nb = b.unicode_len();
    if na != nb {
        return false;
    }
    for i in 0..na
        invariant
            na == a@.len(),
            nb == b@.len(),
            na == nb,
            forall|j: int| 0 <= j < i ==> a@[j] == b@[j],
    {
        if a.get_char(i) != b.get_char(i) {
            return false;
        }
    }
    proof {
        assert(a@ =~= b@);
    }
    true
}

/// Whether `s` ends with `suffix`, counted in characters.
pub fn str_ends_with(s: &str, suffix: &str) -> (r: bool)
    ensures
        r == spec_ends_with(s@, suffix@),
{
    let n = s.unicode_len();
    let m = suffix.unicode_len();
    if m > n {
        return false;
    }
    for i in 0..m
        invariant
            n == s@.len(),
            m == suffix@.len(),
            m <= n,
            forall|j: int| 0 <= j < i ==> s@[n - m + j] == suffix@[j],
    {
        if s.get_char(n - m + i) != suffix.get_char(i) {
            proof {
                assert(spec_ends_with(s@, suffix@) ==> s@.subrange(
                    s@.len() - suffix@.len(),
                    s@.len() as int,
                )[i as int] == suffix@[i as int]);
            }
            return false;
        }
    }
    proof {
        assert(s@.subrange(n - m, n as int) =~= suffix@);
    }
    true
}

/// Drops the last `suffix_len` characters of `s` and appends `replacement`.
pub fn replace_suffix(s: &str, suffix_len: usize, replacement: &str) -> (r: String)
    requires
        suffix_len <= s@.len(),
    ensures
        r@ == s@.subrange(0, s@.len() - suffix_len) + replacement@,
{
    let n = s.unicode_len();
    let stem = s.substring_char(0, n - suffix_len);
    stem.to_owned().concat(replacement)
}

/// Pieces joined by a separator.
pub open spec fn join_sep(xs: Seq<Seq<char>>, sep: Seq<char>) -> Seq<char>
    decreases xs.len(),
{
    if xs.len() == 0 {
        Seq::empty()
    } else if xs.len() == 1 {
        xs[0]
    } else {
        xs[0] + sep + join_sep(xs.drop_first(), sep)
    }
}

/// Appending one more piece extends the joined text by the separator and
/// the piece, except for the first piece.
pub proof fn lemma_join_sep_take_step(xs: Seq<Seq<char>>, sep: Seq<char>, i: int)
    requires
        0 <= i < xs.len(),
    ensures
        join_sep(xs.take(i + 1), sep) == if i == 0 {
            xs[0]
        } else {
            join_sep(xs.take(i), sep) + sep + xs[i]
        },
    decreases i,
{
    if i == 0 {
        assert(xs.take(1)[0] == xs[0]);
        assert(join_sep(xs.take(1), sep) == xs.take(1)[0]);
    } else {
        assert(xs.take(i + 1).drop_first() =~= xs.drop_first().take(i));
        assert(xs.take(i).drop_first() =~= xs.drop_first().take(i - 1));
        lemma_join_sep_take_step(xs.drop_first(), sep, i - 1);
        if i == 1 {
            assert(join_sep(xs.take(2), sep) == xs.take(2)[0] + sep + join_sep(
                xs.take(2).drop_first(),
                sep,
            ));
            assert(xs.drop_first().take(1)[0] == xs[1]);
            assert(join_sep(xs.drop_first().take(1), sep) == xs[1]);
            assert(join_sep(xs.take(1), sep) == xs[0]);
        } else {
            assert(xs.drop_first()[i - 1] == xs[i]);
            assert(join_sep(xs.take(i + 1), sep) == xs[0] + sep + join_sep(
                xs.drop_first().take(i),
                sep,
            ));
            assert(join_sep(xs.take(i), sep) == xs[0] + sep + join_sep(
                xs.drop_first().take(i - 1),
                sep,
            ));
            assert(join_sep(xs.take(i + 1), sep) =~= join_sep(xs.take(i), sep) + sep + xs[i]);
        }
    }
}

/// Relies on `String::push`: appends exactly the one character.
#[verifier::external_body]
pub fn push_char(s: &mut String, c: char)
    ensures
        final(s)@ == old(s)@.push(c),
{
    s.push(c)
}

/// A copy of a vector of strings, element views preserved.
pub fn clone_string_vec(v: &Vec<String>) -> (r: Vec<String>)
    ensures
        views_of(r@) == views_of(v@),
{
    let mut r: Vec<String> = Vec::new();
    for k in 0..v.len()
        invariant
            views_of(r@) == views_of(v@.take(k as int)),
    {
        r.push(v[k].clone());
        proof {
            lemma_views_of_push(r@.drop_last(), r@.last());
            assert(r@.drop_last().push(r@.last()) =~= r@);
            assert(v@.take(k as int).push(v@[k as int]) =~= v@.take(k + 1));
            lemma_views_of_push(v@.take(k as int), v@[k as int]);
        }
    }
    proof {
        assert(v@.take(v@.len() as int) =~= v@);
    }
    r
}

} // verus!
