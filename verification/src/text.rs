//! Character-level text utilities shared by the accumulator and the markup
//! codec: whitespace trimming, splitting a text into lines at newlines, and
//! joining lines back with a trailing newline after each.
use vstd::prelude::*;

verus! {

/// A whitespace character, following Unicode's White_Space property.
pub open spec fn is_space(c: char) -> bool {
    ||| c == ' '
    ||| c == '\t'
    ||| c == '\n'
    ||| c == '\r'
    ||| c == '\u{b}'
    ||| c == '\u{c}'
    ||| c == '\u{85}'
    ||| c == '\u{a0}'
    ||| c == '\u{1680}'
    ||| c == '\u{2000}'
    ||| c == '\u{2001}'
    ||| c == '\u{2002}'
    ||| c == '\u{2003}'
    ||| c == '\u{2004}'
    ||| c == '\u{2005}'
    ||| c == '\u{2006}'
    ||| c == '\u{2007}'
    ||| c == '\u{2008}'
    ||| c == '\u{2009}'
    ||| c == '\u{200a}'
    ||| c == '\u{2028}'
    ||| c == '\u{2029}'
    ||| c == '\u{202f}'
    ||| c == '\u{205f}'
    ||| c == '\u{3000}'
}

/// Executable test for `is_space`.
pub fn is_space_char(c: char) -> (r: bool)
    ensures
        r == is_space(c),
{
    c == ' ' || c == '\t' || c == '\n' || c == '\r' || c == '\u{b}' || c == '\u{c}'
        || c == '\u{85}' || c == '\u{a0}' || c == '\u{1680}' || c == '\u{2000}' || c == '\u{2001}'
        || c == '\u{2002}' || c == '\u{2003}' || c == '\u{2004}' || c == '\u{2005}'
        || c == '\u{2006}' || c == '\u{2007}' || c == '\u{2008}' || c == '\u{2009}'
        || c == '\u{200a}' || c == '\u{2028}' || c == '\u{2029}' || c == '\u{202f}'
        || c == '\u{205f}' || c == '\u{3000}'
}

/// The text with its leading whitespace removed.
pub open spec fn ltrim(s: Seq<char>) -> Seq<char>
    decreases s.len(),
{
    if s.len() > 0 && is_space(s[0]) {
        ltrim(s.drop_first())
    } else {
        s
    }
}

/// The text with its trailing whitespace removed.
pub open spec fn rtrim(s: Seq<char>) -> Seq<char>
    decreases s.len(),
{
    if s.len() > 0 && is_space(s.last()) {
        rtrim(s.drop_last())
    } else {
        s
    }
}

/// The text with surrounding whitespace removed.
pub open spec fn trim(s: Seq<char>) -> Seq<char> {
    rtrim(ltrim(s))
}

pub proof fn lemma_ltrim_len(s: Seq<char>)
    ensures
        ltrim(s).len() <= s.len(),
        s.len() > 0 && is_space(s[0]) ==> ltrim(s).len() < s.len(),
    decreases s.len(),
{
    if s.len() > 0 && is_space(s[0]) {
        lemma_ltrim_len(s.drop_first());
    }
}

pub proof fn lemma_rtrim_len(s: Seq<char>)
    ensures
        rtrim(s).len() <= s.len(),
        s.len() > 0 && is_space(s.last()) ==> rtrim(s).len() < s.len(),
    decreases s.len(),
{
    if s.len() > 0 && is_space(s.last()) {
        lemma_rtrim_len(s.drop_last());
    }
}

/// A text equal to its own trimming neither starts nor ends with whitespace,
/// and is a fixed point of both one-sided trimmings.
pub proof fn lemma_trim_id(s: Seq<char>)
    requires
        trim(s) == s,
    ensures
        ltrim(s) == s,
        rtrim(s) == s,
        s.len() > 0 ==> !is_space(s[0]) && !is_space(s.last()),
{
    lemma_ltrim_len(s);
    lemma_rtrim_len(ltrim(s));
    if s.len() > 0 {
        if is_space(s[0]) {
            assert(ltrim(s).len() < s.len());
        }
        assert(ltrim(s) == s);
        if is_space(s.last()) {
            assert(rtrim(s).len() < s.len());
        }
    } else {
        assert(ltrim(s) == s);
    }
}

/// Index of the first newline in the text, or its length if there is none.
pub open spec fn find_nl(s: Seq<char>) -> int
    decreases s.len(),
{
    if s.len() == 0 {
        0
    } else if s[0] == '\n' {
        0
    } else {
        1 + find_nl(s.drop_first())
    }
}

/// `find_nl` is pinned by its characteristic properties.
pub proof fn lemma_find_nl_is(s: Seq<char>, k: int)
    requires
        0 <= k <= s.len(),
        forall|i: int| 0 <= i < k ==> s[i] != '\n',
        k < s.len() ==> s[k] == '\n',
    ensures
        find_nl(s) == k,
    decreases s.len(),
{
    if s.len() > 0 && s[0] != '\n' {
        assert forall|i: int| 0 <= i < k - 1 implies s.drop_first()[i] != '\n' by {
            assert(s[i + 1] != '\n');
        }
        lemma_find_nl_is(s.drop_first(), k - 1);
    }
}

/// The lines of a text, split at newlines; a final newline closes the last
/// line rather than opening an empty one, so an empty text has no lines.
pub open spec fn split_lines(s: Seq<char>) -> Seq<Seq<char>>
    decreases s.len(),
{
    if s.len() == 0 {
        Seq::empty()
    } else {
        let j = find_nl(s);
        if 0 <= j && j < s.len() {
            seq![s.take(j)] + split_lines(s.skip(j + 1))
        } else {
            seq![s]
        }
    }
}

/// The lines joined back into one text, a newline after every line.
pub open spec fn join_nl(lines: Seq<Seq<char>>) -> Seq<char>
    decreases lines.len(),
{
    if lines.len() == 0 {
        Seq::empty()
    } else {
        lines[0] + seq!['\n'] + join_nl(lines.drop_first())
    }
}

pub proof fn lemma_join_nl_push(lines: Seq<Seq<char>>, x: Seq<char>)
    ensures
        join_nl(lines.push(x)) == join_nl(lines) + x + seq!['\n'],
    decreases lines.len(),
{
    if lines.len() == 0 {
        assert(lines.push(x)[0] == x);
        assert(lines.push(x).drop_first() =~= Seq::<Seq<char>>::empty());
        assert(join_nl(Seq::<Seq<char>>::empty()) == Seq::<char>::empty());
        assert(join_nl(lines.push(x)) == x + seq!['\n'] + Seq::<char>::empty());
        assert(join_nl(lines.push(x)) =~= x + seq!['\n']);
        assert(join_nl(lines) + x + seq!['\n'] =~= x + seq!['\n']);
    } else {
        assert(lines.push(x).drop_first() =~= lines.drop_first().push(x));
        assert(lines.push(x)[0] == lines[0]);
        lemma_join_nl_push(lines.drop_first(), x);
        assert(join_nl(lines.push(x)) == lines[0] + seq!['\n'] + (join_nl(lines.drop_first()) + x
            + seq!['\n']));
        assert(join_nl(lines.push(x)) =~= join_nl(lines) + x + seq!['\n']);
    }
}

/// The views of a sequence of character vectors.
pub open spec fn line_views(ls: Seq<Vec<char>>) -> Seq<Seq<char>> {
    Seq::new(ls.len(), |i: int| ls[i]@)
}

/// A copy of the characters of `v` between `lo` and `hi`.
pub fn sub_vec(v: &Vec<char>, lo: usize, hi: usize) -> (r: Vec<char>)
    requires
        lo <= hi <= v@.len(),
    ensures
        r@ == v@.subrange(lo as int, hi as int),
{
    let mut r: Vec<char> = Vec::new();
    let mut i: usize = lo;
    while i < hi
        invariant
            lo <= i <= hi <= v@.len(),
            r@ == v@.subrange(lo as int, i as int),
        decreases hi - i,
    {
        r.push(v[i]);
        proof {
            assert(v@.subrange(lo as int, i + 1 as int) =~= v@.subrange(lo as int, i as int).push(
                v@[i as int],
            ));
        }
        i += 1;
    }
    r
}

/// Appends the characters of `src` between `lo` and `hi` to `dst`.
pub fn push_range(dst: &mut Vec<char>, src: &Vec<char>, lo: usize, hi: usize)
    requires
        lo <= hi <= src@.len(),
    ensures
        final(dst)@ == old(dst)@ + src@.subrange(lo as int, hi as int),
{
    let mut i: usize = lo;
    while i < hi
        invariant
            lo <= i <= hi <= src@.len(),
            dst@ == old(dst)@ + src@.subrange(lo as int, i as int),
        decreases hi - i,
    {
        dst.push(src[i]);
        proof {
            assert(src@.subrange(lo as int, i + 1 as int) =~= src@.subrange(
                lo as int,
                i as int,
            ).push(src@[i as int]));
            assert(dst@ =~= old(dst)@ + src@.subrange(lo as int, i + 1 as int));
        }
        i += 1;
    }
    proof {
        assert(dst@ =~= old(dst)@ + src@.subrange(lo as int, hi as int));
    }
}

/// Bounds of the trimmed part of `v` between `lo` and `hi`: the same range
/// with surrounding whitespace left out.
pub fn trim_bounds(v: &Vec<char>, lo: usize, hi: usize) -> (r: (usize, usize))
    requires
        lo <= hi <= v@.len(),
    ensures
        lo <= r.0 <= r.1 <= hi,
        v@.subrange(r.0 as int, r.1 as int) == trim(v@.subrange(lo as int, hi as int)),
{
    let ghost whole = v@.subrange(lo as int, hi as int);
    let mut a: usize = lo;
    while a < hi && is_space_char(v[a])
        invariant
            lo <= a <= hi <= v@.len(),
            ltrim(v@.subrange(lo as int, hi as int)) == ltrim(v@.subrange(a as int, hi as int)),
        decreases hi - a,
    {
        proof {
            let cur = v@.subrange(a as int, hi as int);
            assert(cur[0] == v@[a as int]);
            assert(cur.drop_first() =~= v@.subrange(a + 1 as int, hi as int));
        }
        a += 1;
    }
    proof {
        let cur = v@.subrange(a as int, hi as int);
        if a < hi {
            assert(cur[0] == v@[a as int]);
        }
        assert(ltrim(cur) == cur);
    }
    let mut b: usize = hi;
    while b > a && is_space_char(v[b - 1])
        invariant
            lo <= a <= b <= hi <= v@.len(),
            ltrim(v@.subrange(lo as int, hi as int)) == v@.subrange(a as int, hi as int),
            rtrim(v@.subrange(a as int, hi as int)) == rtrim(v@.subrange(a as int, b as int)),
        decreases b - a,
    {
        proof {
            let cur = v@.subrange(a as int, b as int);
            assert(cur.last() == v@[b - 1 as int]);
            assert(cur.drop_last() =~= v@.subrange(a as int, b - 1 as int));
        }
        b -= 1;
    }
    proof {
        let cur = v@.subrange(a as int, b as int);
        if b > a {
            assert(cur.last() == v@[b - 1 as int]);
        }
        assert(rtrim(cur) == cur);
    }
    (a, b)
}

/// The lines of `v`, split at newlines as `split_lines` describes.
pub fn split_to_lines(v: &Vec<char>) -> (r: Vec<Vec<char>>)
    ensures
        r@.len() == split_lines(v@).len(),
        forall|i: int| 0 <= i < r@.len() ==> r@[i]@ == split_lines(v@)[i],
{
    let mut r: Vec<Vec<char>> = Vec::new();
    let mut pos: usize = 0;
    proof {
        assert(v@.skip(0) =~= v@);
        assert(line_views(r@) + split_lines(v@) =~= split_lines(v@));
    }
    while pos < v.len()
        invariant
            pos <= v@.len(),
            split_lines(v@) == line_views(r@) + split_lines(v@.skip(pos as int)),
        decreases v@.len() - pos,
    {
        let ghost s = v@.skip(pos as int);
        let mut j: usize = pos;
        while j < v.len() && v[j] != '\n'
            invariant
                pos <= j <= v@.len(),
                forall|i: int| pos <= i < j ==> v@[i] != '\n',
            decreases v@.len() - j,
        {
            j += 1;
        }
        proof {
            assert forall|i: int| 0 <= i < j - pos implies s[i] != '\n' by {
                assert(s[i] == v@[pos + i]);
            }
            if j < v@.len() {
                assert(s[j - pos] == v@[j as int]);
            }
            lemma_find_nl_is(s, j - pos);
        }
        let line = sub_vec(v, pos, j);
        let ghost old_r = r@;
        r.push(line);
        proof {
            assert(line_views(r@) =~= line_views(old_r).push(v@.subrange(pos as int, j as int)));
        }
        if j < v.len() {
            proof {
                assert(s.take(j - pos) =~= v@.subrange(pos as int, j as int));
                assert(s.skip(j - pos + 1) =~= v@.skip(j + 1 as int));
                assert(split_lines(s) == seq![v@.subrange(pos as int, j as int)] + split_lines(
                    v@.skip(j + 1 as int),
                ));
                assert(line_views(old_r) + split_lines(s) =~= line_views(r@) + split_lines(
                    v@.skip(j + 1 as int),
                ));
            }
            pos = j + 1;
        } else {
            proof {
                assert(s =~= v@.subrange(pos as int, j as int));
                assert(split_lines(s) == seq![v@.subrange(pos as int, j as int)]);
                assert(split_lines(v@.skip(j as int)).len() == 0 ==> true);
                assert(v@.skip(j as int) =~= Seq::<char>::empty());
                assert(line_views(old_r) + split_lines(s) =~= line_views(r@) + split_lines(
                    v@.skip(j as int),
                ));
            }
            pos = j;
        }
    }
    proof {
        assert(v@.skip(pos as int) =~= Seq::<char>::empty());
        assert(split_lines(v@) =~= line_views(r@));
    }
    r
}

/// The characters of a string, in order.
pub fn str_to_chars(s: &str) -> (v: Vec<char>)
    ensures
        v@ == s@,
{
    let n = s.unicode_len();
    let mut v: Vec<char> = Vec::new();
    let mut i: usize = 0;
    while i < n
        invariant
            i <= n,
            n == s@.len(),
            v@ == s@.take(i as int),
        decreases n - i,
    {
        let c = s.get_char(i);
        v.push(c);
        proof {
            assert(s@.take(i + 1 as int) =~= s@.take(i as int).push(s@[i as int]));
        }
        i += 1;
    }
    proof {
        assert(s@.take(n as int) =~= s@);
    }
    v
}

/// Relies on `String`'s `FromIterator<char>` implementation: collecting
/// characters yields the string holding exactly those characters in order.
#[verifier::external_body]
pub fn chars_to_string(v: &Vec<char>) -> (s: String)
    ensures
        s@ == v@,
{
    v.iter().collect()
}

} // verus!
