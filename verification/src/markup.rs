//! The chat platform's code-block markup: stripping an inbound message down
//! to bare source text, and wrapping outbound text in a triple-backtick fence
//! tagged with the language.
use vstd::prelude::*;

use crate::text::{
    chars_to_string, is_space, lemma_trim_id, ltrim, rtrim, str_to_chars, sub_vec, trim,
    trim_bounds,
};

verus! {

/// The triple-backtick fence delimiter.
pub open spec fn fence() -> Seq<char> {
    seq!['`', '`', '`']
}

/// The language tag that may follow an opening fence, newline included.
pub open spec fn lang_line() -> Seq<char> {
    seq!['l', 'i', 's', 'p', '\n']
}

/// An opening fence carrying the language tag.
pub open spec fn open_fence() -> Seq<char> {
    seq!['`', '`', '`', 'l', 'i', 's', 'p', '\n']
}

/// A closing fence on a line of its own.
pub open spec fn close_fence() -> Seq<char> {
    seq!['\n', '`', '`', '`']
}

pub open spec fn starts_with(s: Seq<char>, p: Seq<char>) -> bool {
    p.len() <= s.len() && s.take(p.len() as int) == p
}

pub open spec fn ends_with(s: Seq<char>, p: Seq<char>) -> bool {
    p.len() <= s.len() && s.skip(s.len() - p.len()) == p
}

/// The markup removed from an inbound message, in order: an optional leading
/// triple-backtick fence (with its optional language tag), or else a single
/// leading backtick; then an optional trailing triple backtick, or else a
/// single trailing backtick; whitespace is trimmed around each step.
pub open spec fn strip_spec(s: Seq<char>) -> Seq<char> {
    let t = trim(s);
    let a = if starts_with(t, fence()) {
        let u = t.skip(3);
        if starts_with(u, lang_line()) {
            u.skip(5)
        } else {
            u
        }
    } else if starts_with(s, seq!['`']) {
        s.skip(1)
    } else {
        s
    };
    let ta = trim(a);
    let b = if ends_with(ta, fence()) {
        ta.take(ta.len() - 3)
    } else if ends_with(a, seq!['`']) {
        a.take(a.len() - 1)
    } else {
        a
    };
    trim(b)
}

/// The outbound wrapping: a fence with the language tag, the text, a closing
/// fence.
pub open spec fn wrap_spec(s: Seq<char>) -> Seq<char> {
    open_fence() + s + close_fence()
}

/// Does the range `lo..hi` of `v` start with the pattern `p`?
fn range_starts_with(v: &Vec<char>, lo: usize, hi: usize, p: &Vec<char>) -> (r: bool)
    requires
        lo <= hi <= v@.len(),
    ensures
        r == starts_with(v@.subrange(lo as int, hi as int), p@),
{
    let ghost s = v@.subrange(lo as int, hi as int);
    let n = p.len();
    if hi - lo < n {
        return false;
    }
    let mut i: usize = 0;
    while i < n
        invariant
            i <= n,
            n <= hi - lo,
            lo <= hi <= v@.len(),
            n == p@.len(),
            s == v@.subrange(lo as int, hi as int),
            forall|k: int| 0 <= k < i ==> s[k] == p@[k],
        decreases n - i,
    {
        if v[lo + i] != p[i] {
            proof {
                assert(s[i as int] == v@[lo + i as int]);
                assert(s.take(n as int)[i as int] == s[i as int]);
            }
            return false;
        }
        proof {
            assert(s[i as int] == v@[lo + i as int]);
        }
        i += 1;
    }
    proof {
        assert(s.take(n as int) =~= p@);
    }
    true
}

/// Does the range `lo..hi` of `v` end with the pattern `p`?
fn range_ends_with(v: &Vec<char>, lo: usize, hi: usize, p: &Vec<char>) -> (r: bool)
    requires
        lo <= hi <= v@.len(),
    ensures
        r == ends_with(v@.subrange(lo as int, hi as int), p@),
{
    let ghost s = v@.subrange(lo as int, hi as int);
    let n = p.len();
    if hi - lo < n {
        return false;
    }
    let base = hi - n;
    let mut i: usize = 0;
    while i < n
        invariant
            i <= n,
            n <= hi - lo,
            lo <= hi <= v@.len(),
            n == p@.len(),
            base == hi - n,
            s == v@.subrange(lo as int, hi as int),
            forall|k: int| 0 <= k < i ==> s[s.len() - n + k] == p@[k],
        decreases n - i,
    {
        if v[base + i] != p[i] {
            proof {
                assert(s[s.len() - n + i] == v@[base + i as int]);
                assert(s.skip(s.len() - n)[i as int] == s[s.len() - n + i]);
            }
            return false;
        }
        proof {
            assert(s[s.len() - n + i] == v@[base + i as int]);
        }
        i += 1;
    }
    proof {
        assert(s.skip(s.len() - n as int) =~= p@);
    }
    true
}

fn fence_vec() -> (r: Vec<char>)
    ensures
        r@ == fence(),
{
    let mut r: Vec<char> = Vec::new();
    r.push('`');
    r.push('`');
    r.push('`');
    proof {
        assert(r@ =~= fence());
    }
    r
}

fn lang_vec() -> (r: Vec<char>)
    ensures
        r@ == lang_line(),
{
    let mut r: Vec<char> = Vec::new();
    r.push('l');
    r.push('i');
    r.push('s');
    r.push('p');
    r.push('\n');
    proof {
        assert(r@ =~= lang_line());
    }
    r
}

fn tick_vec() -> (r: Vec<char>)
    ensures
        r@ == seq!['`'],
{
    let mut r: Vec<char> = Vec::new();
    r.push('`');
    proof {
        assert(r@ =~= seq!['`']);
    }
    r
}

/// Strips the platform markup from the characters of an inbound message.
pub fn strip_chars(v: &Vec<char>) -> (r: Vec<char>)
    ensures
        r@ == strip_spec(v@),
{
    let f = fence_vec();
    let lang = lang_vec();
    let tick = tick_vec();
    proof {
        assert(v@.subrange(0, v@.len() as int) =~= v@);
    }
    let (tl, th) = trim_bounds(v, 0, v.len());
    // Strip the optional prefix.
    let alo: usize;
    let ahi: usize;
    if range_starts_with(v, tl, th, &f) {
        proof {
            assert(v@.subrange(tl as int, th as int).skip(3) =~= v@.subrange(
                tl + 3 as int,
                th as int,
            ));
        }
        if range_starts_with(v, tl + 3, th, &lang) {
            alo = tl + 8;
            ahi = th;
            proof {
                assert(v@.subrange(tl + 3 as int, th as int).skip(5) =~= v@.subrange(
                    tl + 8 as int,
                    th as int,
                ));
            }
        } else {
            alo = tl + 3;
            ahi = th;
        }
    } else if range_starts_with(v, 0, v.len(), &tick) {
        alo = 1;
        ahi = v.len();
        proof {
            assert(v@.skip(1) =~= v@.subrange(1, v@.len() as int));
        }
    } else {
        alo = 0;
        ahi = v.len();
    }
    let ghost a = strip_prefix_part(v@);
    proof {
        assert(a == v@.subrange(alo as int, ahi as int));
    }
    // Strip the optional suffix.
    let (ta_lo, ta_hi) = trim_bounds(v, alo, ahi);
    let blo: usize;
    let bhi: usize;
    if range_ends_with(v, ta_lo, ta_hi, &f) {
        blo = ta_lo;
        bhi = ta_hi - 3;
        proof {
            let ta = v@.subrange(ta_lo as int, ta_hi as int);
            assert(ta.take(ta.len() - 3) =~= v@.subrange(ta_lo as int, ta_hi - 3 as int));
        }
    } else if range_ends_with(v, alo, ahi, &tick) {
        blo = alo;
        bhi = ahi - 1;
        proof {
            assert(a.take(a.len() - 1) =~= v@.subrange(alo as int, ahi - 1 as int));
        }
    } else {
        blo = alo;
        bhi = ahi;
    }
    let (flo, fhi) = trim_bounds(v, blo, bhi);
    sub_vec(v, flo, fhi)
}

/// The prefix-stripping half of `strip_spec`, on its own for proof reuse.
pub open spec fn strip_prefix_part(s: Seq<char>) -> Seq<char> {
    let t = trim(s);
    if starts_with(t, fence()) {
        let u = t.skip(3);
        if starts_with(u, lang_line()) {
            u.skip(5)
        } else {
            u
        }
    } else if starts_with(s, seq!['`']) {
        s.skip(1)
    } else {
        s
    }
}

/// Wraps the characters of outbound text in the platform fence.
pub fn wrap_chars(v: &Vec<char>) -> (r: Vec<char>)
    ensures
        r@ == wrap_spec(v@),
{
    let mut r: Vec<char> = Vec::new();
    r.push('`');
    r.push('`');
    r.push('`');
    r.push('l');
    r.push('i');
    r.push('s');
    r.push('p');
    r.push('\n');
    proof {
        assert(r@ =~= open_fence());
    }
    crate::text::push_range(&mut r, v, 0, v.len());
    proof {
        assert(v@.subrange(0, v@.len() as int) =~= v@);
    }
    r.push('\n');
    r.push('`');
    r.push('`');
    r.push('`');
    proof {
        assert(r@ =~= wrap_spec(v@));
    }
    r
}

/// Strips the platform markup from an inbound message.
pub fn strip_markup(s: &str) -> (r: String)
    ensures
        r@ == strip_spec(s@),
{
    let v = str_to_chars(s);
    let stripped = strip_chars(&v);
    chars_to_string(&stripped)
}

/// Wraps outbound text in the platform fence.
pub fn wrap_markup(s: &str) -> (r: String)
    ensures
        r@ == wrap_spec(s@),
{
    let v = str_to_chars(s);
    let wrapped = wrap_chars(&v);
    chars_to_string(&wrapped)
}

/// Text that can be carried inside the platform's code markup.
pub trait DiscordCode {
    spec fn code_text(&self) -> Seq<char>;

    /// Adds the platform's formatting.
    fn as_discord_code(&self) -> (r: String)
        ensures
            r@ == wrap_spec(self.code_text()),
    ;

    /// Removes the platform's formatting (backticks and the language tag) and
    /// returns only the source-code part of the input.
    fn strip_discord_code(&self) -> (r: String)
        ensures
            r@ == strip_spec(self.code_text()),
    ;
}

impl DiscordCode for str {
    open spec fn code_text(&self) -> Seq<char> {
        self@
    }

    fn as_discord_code(&self) -> (r: String) {
        wrap_markup(self)
    }

    fn strip_discord_code(&self) -> (r: String) {
        strip_markup(self)
    }
}

impl DiscordCode for String {
    open spec fn code_text(&self) -> Seq<char> {
        self@
    }

    fn as_discord_code(&self) -> (r: String) {
        wrap_markup(self.as_str())
    }

    fn strip_discord_code(&self) -> (r: String) {
        strip_markup(self.as_str())
    }
}

proof fn lemma_ltrim_fix(s: Seq<char>)
    requires
        s.len() == 0 || !is_space(s[0]),
    ensures
        ltrim(s) == s,
{
}

proof fn lemma_rtrim_fix(s: Seq<char>)
    requires
        s.len() == 0 || !is_space(s.last()),
    ensures
        rtrim(s) == s,
{
}

/// Wrapping and then stripping returns trimmed, backtick-free text unchanged.
pub proof fn lemma_strip_wrap_roundtrip(x: Seq<char>)
    requires
        forall|i: int| 0 <= i < x.len() ==> x[i] != '`',
        trim(x) == x,
    ensures
        strip_spec(wrap_spec(x)) == x,
{
    let w = wrap_spec(x);
    lemma_trim_id(x);
    // The wrapped text starts and ends with a backtick, so it trims to itself.
    assert(w[0] == '`');
    assert(w.last() == '`');
    lemma_ltrim_fix(w);
    lemma_rtrim_fix(w);
    assert(trim(w) == w);
    // The leading fence and the language tag are stripped.
    assert(w.take(3) =~= fence());
    assert(starts_with(w, fence()));
    let u = w.skip(3);
    assert(u.take(5) =~= lang_line());
    assert(starts_with(u, lang_line()));
    let a = u.skip(5);
    assert(a =~= x + close_fence());
    if x.len() == 0 {
        assert(a =~= close_fence());
        // Trimming eats the newline and leaves the bare closing fence.
        assert(is_space(a[0]));
        assert(ltrim(a) == ltrim(a.drop_first()));
        assert(a.drop_first() =~= fence());
        lemma_ltrim_fix(fence());
        lemma_rtrim_fix(fence());
        let ta = trim(a);
        assert(ta == fence());
        assert(ta.skip(0) =~= fence());
        assert(ends_with(ta, fence()));
        let b = ta.take(ta.len() - 3);
        assert(b =~= Seq::<char>::empty());
        assert(strip_spec(w) == trim(b));
        assert(trim(b) =~= x);
    } else {
        // The trimmed middle still ends with the closing fence.
        assert(a[0] == x[0]);
        lemma_ltrim_fix(a);
        assert(a.last() == '`');
        lemma_rtrim_fix(a);
        let ta = trim(a);
        assert(ta == a);
        assert(a.skip(a.len() - 3) =~= fence());
        assert(ends_with(ta, fence()));
        let b = ta.take(ta.len() - 3);
        assert(b =~= x + seq!['\n']);
        // The final trim removes the newline that the wrapping added.
        assert(b[0] == x[0]);
        lemma_ltrim_fix(b);
        assert(is_space(b.last()));
        assert(rtrim(b) == rtrim(b.drop_last()));
        assert(b.drop_last() =~= x);
        assert(rtrim(x) == x);
        assert(strip_spec(w) == x);
    }
}

} // verus!
