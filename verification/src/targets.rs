//! Splitting the advertised-format list: the bytes answered for the format
//! enumeration request are text whose whitespace-separated words name the
//! formats the current owner can serve.

use vstd::prelude::*;

verus! {

/// The Unicode `White_Space` code points, the separators recognised when the
/// format list is split into identifiers.
pub open spec fn is_unicode_whitespace(c: char) -> bool {
    let u = c as u32;
    ||| u == 0x20
    ||| (0x09 <= u && u <= 0x0d)
    ||| u == 0x85
    ||| u == 0xa0
    ||| u == 0x1680
    ||| (0x2000 <= u && u <= 0x200a)
    ||| u == 0x2028
    ||| u == 0x2029
    ||| u == 0x202f
    ||| u == 0x205f
    ||| u == 0x3000
}

/// Whether `c` is one of the Unicode `White_Space` code points.
pub fn char_is_whitespace(c: char) -> (r: bool)
    ensures
        r == is_unicode_whitespace(c),
{
    let u = c as u32;
    u == 0x20 || (0x09 <= u && u <= 0x0d) || u == 0x85 || u == 0xa0 || u == 0x1680 || (0x2000 <= u
        && u <= 0x200a) || u == 0x2028 || u == 0x2029 || u == 0x202f || u == 0x205f || u == 0x3000
}

/// Length of the leading run of non-whitespace characters of `s`.
pub open spec fn token_len(s: Seq<char>) -> int
    decreases s.len(),
{
    if s.len() == 0 || is_unicode_whitespace(s[0]) {
        0
    } else {
        1 + token_len(s.subrange(1, s.len() as int))
    }
}

pub proof fn lemma_token_len_bounds(s: Seq<char>)
    ensures
        0 <= token_len(s) <= s.len(),
        s.len() > 0 && !is_unicode_whitespace(s[0]) ==> 1 <= token_len(s),
    decreases s.len(),
{
    if s.len() > 0 && !is_unicode_whitespace(s[0]) {
        lemma_token_len_bounds(s.subrange(1, s.len() as int));
    }
}

/// The whitespace-separated words of `s`: the maximal runs of non-whitespace
/// characters, in order.
pub open spec fn split_whitespace(s: Seq<char>) -> Seq<Seq<char>>
    decreases s.len(),
    via split_whitespace_decreases
{
    if s.len() == 0 {
        Seq::empty()
    } else if is_unicode_whitespace(s[0]) {
        split_whitespace(s.subrange(1, s.len() as int))
    } else {
        let k = token_len(s);
        seq![s.subrange(0, k)] + split_whitespace(s.subrange(k, s.len() as int))
    }
}

#[via_fn]
proof fn split_whitespace_decreases(s: Seq<char>) {
    lemma_token_len_bounds(s);
}

/// A run of `m` non-whitespace characters that is followed by whitespace (or
/// by the end of the text) is exactly the leading token.
proof fn lemma_token_len_from_scan(s: Seq<char>, m: int)
    requires
        0 <= m <= s.len(),
        forall|q: int| 0 <= q < m ==> !is_unicode_whitespace(s[q]),
        m == s.len() || is_unicode_whitespace(s[m]),
    ensures
        token_len(s) == m,
    decreases s.len(),
{
    if m > 0 {
        let t = s.subrange(1, s.len() as int);
        assert(forall|q: int| 0 <= q < m - 1 ==> !is_unicode_whitespace(t[q]));
        lemma_token_len_from_scan(t, m - 1);
    }
}

/// Splits `s` at Unicode whitespace into its maximal non-whitespace words.
pub fn split_whitespace_words(s: &str) -> (r: Vec<String>)
    ensures
        r.deep_view() == split_whitespace(s@),
{
    let n = s.unicode_len();
    let mut r: Vec<String> = Vec::new();
    let mut i: usize = 0;
    proof {
        assert(s@.subrange(0, n as int) =~= s@);
        assert(r.deep_view() =~= Seq::<Seq<char>>::empty());
        assert(r.deep_view() + split_whitespace(s@) =~= split_whitespace(s@));
    }
    while i < n
        invariant
            n == s@.len(),
            i <= n,
            split_whitespace(s@) == r.deep_view() + split_whitespace(
                s@.subrange(i as int, n as int),
            ),
        decreases n - i,
    {
        let ghost rest = s@.subrange(i as int, n as int);
        let c = s.get_char(i);
        if char_is_whitespace(c) {
            proof {
                assert(rest.subrange(1, rest.len() as int) =~= s@.subrange(
                    i + 1 as int,
                    n as int,
                ));
            }
            i = i + 1;
        } else {
            let mut j: usize = i + 1;
            loop
                invariant
                    n == s@.len(),
                    i < j <= n,
                    forall|q: int| i <= q < j ==> !is_unicode_whitespace(s@[q]),
                ensures
                    i < j <= n,
                    forall|q: int| i <= q < j ==> !is_unicode_whitespace(s@[q]),
                    j == n || is_unicode_whitespace(s@[j as int]),
                decreases n - j,
            {
                if j == n {
                    break ;
                }
                let c2 = s.get_char(j);
                if char_is_whitespace(c2) {
                    break ;
                }
                j = j + 1;
            }
            proof {
                assert(forall|q: int| 0 <= q < j - i ==> rest[q] == s@[i + q]);
                lemma_token_len_from_scan(rest, j - i);
                lemma_token_len_bounds(rest);
                assert(rest.subrange(0, j - i) =~= s@.subrange(i as int, j as int));
                assert(rest.subrange(j - i, rest.len() as int) =~= s@.subrange(
                    j as int,
                    n as int,
                ));
            }
            let tok: String = s.substring_char(i, j).to_owned();
            let ghost r_before = r.deep_view();
            r.push(tok);
            proof {
                assert(r.deep_view() =~= r_before.push(tok@));
                assert(split_whitespace(s@) == r_before + (seq![rest.subrange(0, j - i)]
                    + split_whitespace(s@.subrange(j as int, n as int))));
                assert(r.deep_view() + split_whitespace(s@.subrange(j as int, n as int))
                    =~= split_whitespace(s@));
            }
            i = j;
        }
    }
    proof {
        assert(s@.subrange(n as int, n as int) =~= Seq::<char>::empty());
        assert(split_whitespace(s@) =~= r.deep_view());
    }
    r
}

} // verus!
