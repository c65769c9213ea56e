//! The incremental code accumulator: a growing source buffer that classifies
//! its own bracket balance, re-indents appended fragments by nesting depth,
//! and can retract one line counted backward from the end.
use vstd::prelude::*;

use crate::markup::{strip_chars, strip_markup, strip_spec, wrap_markup, wrap_spec, DiscordCode};
use crate::session::{eval_source, render_all};
use crate::text::{
    chars_to_string, join_nl, lemma_join_nl_push, push_range, split_lines, split_to_lines,
    str_to_chars,
};
use vstd::string::StringExecFns;

verus! {

/// Bracket balance of a buffer: balanced, short of `n` closing brackets, or
/// carrying `n` closing brackets too many.
#[derive(Debug)]
pub enum Balanced {
    Yes,
    NoMissing(u32),
    NoTrailing(u32),
}

/// Number of opening brackets in the text.
pub open spec fn opens(s: Seq<char>) -> nat
    decreases s.len(),
{
    if s.len() == 0 {
        0
    } else {
        opens(s.drop_last()) + if s.last() == '(' {
            1nat
        } else {
            0nat
        }
    }
}

/// Number of closing brackets in the text.
pub open spec fn closes(s: Seq<char>) -> nat
    decreases s.len(),
{
    if s.len() == 0 {
        0
    } else {
        closes(s.drop_last()) + if s.last() == ')' {
            1nat
        } else {
            0nat
        }
    }
}

pub proof fn lemma_counts_le_len(s: Seq<char>)
    ensures
        opens(s) <= s.len(),
        closes(s) <= s.len(),
    decreases s.len(),
{
    if s.len() > 0 {
        lemma_counts_le_len(s.drop_last());
    }
}

/// The indentation depth used for newly appended text: the number of missing
/// closing brackets, or zero for a balanced or over-closed buffer.
pub open spec fn indent_of(s: Seq<char>) -> nat {
    if opens(s) > closes(s) {
        (opens(s) - closes(s)) as nat
    } else {
        0
    }
}

/// Number of closing brackets at the head of a line.
pub open spec fn leading_closers(line: Seq<char>) -> nat
    decreases line.len(),
{
    if line.len() > 0 && line[0] == ')' {
        1 + leading_closers(line.drop_first())
    } else {
        0
    }
}

pub proof fn lemma_leading_closers_is(line: Seq<char>, k: int)
    requires
        0 <= k <= line.len(),
        forall|i: int| 0 <= i < k ==> line[i] == ')',
        k < line.len() ==> line[k] != ')',
    ensures
        leading_closers(line) == k,
    decreases line.len(),
{
    if line.len() > 0 && line[0] == ')' {
        assert(k > 0);
        assert forall|i: int| 0 <= i < k - 1 implies line.drop_first()[i] == ')' by {
            assert(line[i + 1] == ')');
        }
        if k - 1 < line.len() - 1 {
            assert(line.drop_first()[k - 1] == line[k]);
        }
        lemma_leading_closers_is(line.drop_first(), k - 1);
    }
}

/// `n` tab characters.
pub open spec fn tabs(n: nat) -> Seq<char>
    decreases n,
{
    if n == 0 {
        Seq::empty()
    } else {
        tabs((n - 1) as nat).push('\t')
    }
}

/// One line of a stripped fragment folded into the buffer: its leading
/// closing brackets hug the text already there; if anything follows them, a
/// newline is inserted when the buffer ends with a closing bracket, then the
/// indentation tabs and the rest of the line.
pub open spec fn append_line(buf: Seq<char>, line: Seq<char>, ind: nat) -> Seq<char> {
    let k = leading_closers(line) as int;
    let b = buf + line.take(k);
    if k >= line.len() {
        b
    } else {
        let b2 = if b.len() > 0 && b.last() == ')' {
            b.push('\n')
        } else {
            b
        };
        b2 + tabs(ind) + line.skip(k)
    }
}

/// The lines of a fragment folded into the buffer in order.
pub open spec fn append_lines(buf: Seq<char>, lines: Seq<Seq<char>>, ind: nat) -> Seq<char>
    decreases lines.len(),
{
    if lines.len() == 0 {
        buf
    } else {
        append_lines(append_line(buf, lines[0], ind), lines.drop_first(), ind)
    }
}

pub proof fn lemma_append_lines_push(buf: Seq<char>, lines: Seq<Seq<char>>, x: Seq<char>, ind: nat)
    ensures
        append_lines(buf, lines.push(x), ind) == append_line(append_lines(buf, lines, ind), x, ind),
    decreases lines.len(),
{
    let p = lines.push(x);
    if lines.len() == 0 {
        assert(p[0] == x);
        assert(p.drop_first() =~= Seq::<Seq<char>>::empty());
        assert(append_lines(buf, p, ind) == append_lines(
            append_line(buf, x, ind),
            p.drop_first(),
            ind,
        ));
        assert(append_lines(append_line(buf, x, ind), p.drop_first(), ind) == append_line(
            buf,
            x,
            ind,
        ));
        assert(append_lines(buf, lines, ind) == buf);
    } else {
        assert(p[0] == lines[0]);
        assert(p.drop_first() =~= lines.drop_first().push(x));
        assert(append_lines(buf, p, ind) == append_lines(
            append_line(buf, lines[0], ind),
            lines.drop_first().push(x),
            ind,
        ));
        lemma_append_lines_push(append_line(buf, lines[0], ind), lines.drop_first(), x, ind);
        assert(append_lines(buf, lines, ind) == append_lines(
            append_line(buf, lines[0], ind),
            lines.drop_first(),
            ind,
        ));
    }
}

/// What appending a raw fragment does to the buffer: the fragment is stripped
/// of markup, split into lines, and folded in at the buffer's current
/// indentation depth.
pub open spec fn append_spec(buf: Seq<char>, frag: Seq<char>) -> Seq<char> {
    append_lines(buf, split_lines(strip_spec(frag)), indent_of(buf))
}

/// A fragment of closing brackets only is appended verbatim: no newline, no
/// indentation, whatever the buffer holds.
pub proof fn lemma_append_closers_verbatim(buf: Seq<char>, frag: Seq<char>)
    requires
        frag.len() > 0,
        forall|i: int| 0 <= i < frag.len() ==> frag[i] == ')',
    ensures
        append_spec(buf, frag) == buf + frag,
{
    // The fragment carries no markup and no whitespace, so stripping keeps it.
    assert(!crate::text::is_space(frag[0]));
    assert(!crate::text::is_space(frag.last()));
    crate::text::lemma_ltrim_len(frag);
    assert(crate::text::ltrim(frag) == frag);
    assert(crate::text::rtrim(frag) == frag);
    assert(crate::text::trim(frag) == frag);
    assert(frag[0] != '`');
    assert(!crate::markup::starts_with(frag, crate::markup::fence())) by {
        if crate::markup::starts_with(frag, crate::markup::fence()) {
            assert(frag.take(3)[0] == frag[0]);
            assert(crate::markup::fence()[0] == '`');
        }
    }
    assert(!crate::markup::starts_with(frag, seq!['`'])) by {
        if crate::markup::starts_with(frag, seq!['`']) {
            assert(frag.take(1)[0] == frag[0]);
        }
    }
    assert(!crate::markup::ends_with(frag, crate::markup::fence())) by {
        if crate::markup::ends_with(frag, crate::markup::fence()) {
            assert(frag.skip(frag.len() - 3)[2] == frag.last());
            assert(crate::markup::fence()[2] == '`');
        }
    }
    assert(!crate::markup::ends_with(frag, seq!['`'])) by {
        if crate::markup::ends_with(frag, seq!['`']) {
            assert(frag.skip(frag.len() - 1)[0] == frag.last());
        }
    }
    assert(strip_spec(frag) == frag);
    // It holds no newline, so it is one single line.
    assert forall|i: int| 0 <= i < frag.len() implies frag[i] != '\n' by {}
    crate::text::lemma_find_nl_is(frag, frag.len() as int);
    assert(split_lines(frag) == seq![frag]);
    // Every character is a closing bracket, so the whole line hugs the buffer.
    lemma_leading_closers_is(frag, frag.len() as int);
    let lines = seq![frag];
    let ind = indent_of(buf);
    assert(lines.drop_first() =~= Seq::<Seq<char>>::empty());
    assert(lines[0] == frag);
    assert(append_lines(buf, lines, ind) == append_lines(
        append_line(buf, frag, ind),
        lines.drop_first(),
        ind,
    ));
    assert(append_lines(append_line(buf, frag, ind), lines.drop_first(), ind) == append_line(
        buf,
        frag,
        ind,
    ));
    assert(frag.take(frag.len() as int) =~= frag);
    assert(append_line(buf, frag, indent_of(buf)) == buf + frag);
}

/// The growing source buffer of one conversation.
#[derive(Debug)]
pub struct UserCode {
    code: Vec<char>,
}

impl View for UserCode {
    type V = Seq<char>;

    closed spec fn view(&self) -> Seq<char> {
        self.code@
    }
}

impl UserCode {
    /// A buffer holding the given text verbatim.
    pub fn new(source: &str) -> (r: Self)
        ensures
            r@ == source@,
    {
        UserCode { code: str_to_chars(source) }
    }

    /// The buffer's current text.
    pub fn text(&self) -> (r: String)
        ensures
            r@ == self@,
    {
        chars_to_string(&self.code)
    }

    /// Are the brackets in the source code balanced? Reports `Yes` when the
    /// counts of opening and closing brackets agree, `NoMissing(n)` when `n`
    /// more would have to close, and `NoTrailing(n)` when `n` too many close.
    pub fn balance(&self) -> (r: Balanced)
        requires
            self@.len() <= u32::MAX,
        ensures
            opens(self@) == closes(self@) ==> r == Balanced::Yes,
            opens(self@) > closes(self@) ==> r == Balanced::NoMissing(
                (opens(self@) - closes(self@)) as u32,
            ),
            opens(self@) < closes(self@) ==> r == Balanced::NoTrailing(
                (closes(self@) - opens(self@)) as u32,
            ),
    {
        let n = self.code.len();
        let mut no: usize = 0;
        let mut nc: usize = 0;
        let mut i: usize = 0;
        while i < n
            invariant
                i <= n,
                n == self@.len() <= u32::MAX,
                no == opens(self@.take(i as int)),
                nc == closes(self@.take(i as int)),
                no <= i,
                nc <= i,
            decreases n - i,
        {
            let c = self.code[i];
            proof {
                assert(self@.take(i + 1 as int).drop_last() =~= self@.take(i as int));
                assert(self@.take(i + 1 as int).last() == self@[i as int]);
            }
            if c == '(' {
                no += 1;
            } else if c == ')' {
                nc += 1;
            }
            i += 1;
        }
        proof {
            assert(self@.take(n as int) =~= self@);
        }
        if no == nc {
            Balanced::Yes
        } else if no > nc {
            Balanced::NoMissing((no - nc) as u32)
        } else {
            Balanced::NoTrailing((nc - no) as u32)
        }
    }

    /// Appends a fragment: markup is stripped, and each line is folded in
    /// with closing brackets hugging the existing text and other text placed
    /// on an indented new line, as `append_spec` states.
    pub fn append(&mut self, source: &str)
        requires
            old(self)@.len() <= u32::MAX,
        ensures
            final(self)@ == append_spec(old(self)@, source@),
    {
        let ghost orig = self@;
        let ind: usize = match self.balance() {
            Balanced::NoMissing(n) => n as usize,
            _ => 0,
        };
        proof {
            lemma_counts_le_len(orig);
            assert(ind as nat == indent_of(orig));
        }
        let frag = str_to_chars(source);
        let stripped = strip_chars(&frag);
        let lines = split_to_lines(&stripped);
        let ghost ls = split_lines(strip_spec(source@));
        let nl = lines.len();
        let mut li: usize = 0;
        while li < nl
            invariant
                li <= nl,
                nl == ls.len(),
                nl == lines@.len(),
                forall|i: int| 0 <= i < nl ==> lines@[i]@ == ls[i],
                ind as nat == indent_of(orig),
                self@ == append_lines(orig, ls.take(li as int), ind as nat),
            decreases nl - li,
        {
            let ghost before = self@;
            let line = &lines[li];
            let llen = line.len();
            let mut k: usize = 0;
            while k < llen && line[k] == ')'
                invariant
                    k <= llen,
                    llen == line@.len(),
                    forall|i: int| 0 <= i < k ==> line@[i] == ')',
                decreases llen - k,
            {
                k += 1;
            }
            proof {
                lemma_leading_closers_is(line@, k as int);
            }
            push_range(&mut self.code, line, 0, k);
            let ghost b = before + line@.take(k as int);
            proof {
                assert(self@ == b);
            }
            if k < llen {
                if self.code.len() > 0 && self.code[self.code.len() - 1] == ')' {
                    proof {
                        assert(b.last() == ')');
                    }
                    self.code.push('\n');
                }
                let ghost b2 = if b.len() > 0 && b.last() == ')' {
                    b.push('\n')
                } else {
                    b
                };
                proof {
                    assert(self@ == b2);
                    assert(b2 + tabs(0) =~= b2);
                }
                let mut t: usize = 0;
                while t < ind
                    invariant
                        t <= ind,
                        self@ == b2 + tabs(t as nat),
                    decreases ind - t,
                {
                    self.code.push('\t');
                    proof {
                        assert((b2 + tabs(t as nat)).push('\t') =~= b2 + tabs((t + 1) as nat));
                    }
                    t += 1;
                }
                push_range(&mut self.code, line, k, llen);
                proof {
                    assert(self@ == b2 + tabs(ind as nat) + line@.skip(k as int)) by {
                        assert(line@.subrange(k as int, llen as int) == line@.skip(k as int));
                        assert((b2 + tabs(ind as nat)) + line@.skip(k as int) =~= b2 + tabs(
                            ind as nat,
                        ) + line@.skip(k as int));
                    }
                }
            }
            proof {
                assert(self@ == append_line(before, ls[li as int], ind as nat));
                lemma_append_lines_push(orig, ls.take(li as int), ls[li as int], ind as nat);
                assert(ls.take(li + 1 as int) =~= ls.take(li as int).push(ls[li as int]));
            }
            li += 1;
        }
        proof {
            assert(ls.take(nl as int) =~= ls);
        }
    }

    /// Deletes one line by its relative index: `0` deletes the last line,
    /// `1` the line before it, and so on; an index past the first line
    /// saturates there. A negative index deletes nothing. Returns the text
    /// of the removed line. The remaining lines are rejoined with a newline
    /// after every line.
    pub fn del(&mut self, del_idx: i64) -> (r: Option<String>)
        ensures
            del_idx < 0 ==> r is None && final(self)@ == old(self)@,
            del_idx >= 0 ==> ({
                let ls = split_lines(old(self)@);
                if ls.len() == 0 {
                    r is None && final(self)@ == old(self)@
                } else {
                    let eff: int = if del_idx + 1 <= ls.len() {
                        ls.len() - del_idx - 1
                    } else {
                        0
                    };
                    &&& r matches Some(line) && line@ == ls[eff]
                    &&& final(self)@ == join_nl(ls.take(eff) + ls.skip(eff + 1))
                }
            }),
    {
        if del_idx < 0 {
            return None;
        }
        let ghost ls = split_lines(self@);
        let lines = split_to_lines(&self.code);
        let n = lines.len();
        if n == 0 {
            return None;
        }
        let k: u64 = del_idx as u64;
        let eff: usize = if (n as u64) > k {
            ((n as u64) - 1 - k) as usize
        } else {
            0
        };
        proof {
            assert(eff < n);
        }
        let mut out: Vec<char> = Vec::new();
        let mut i: usize = 0;
        while i < n
            invariant
                i <= n,
                eff < n,
                n == ls.len(),
                n == lines@.len(),
                forall|j: int| 0 <= j < n ==> lines@[j]@ == ls[j],
                out@ == join_nl(
                    if i <= eff {
                        ls.take(i as int)
                    } else {
                        ls.take(eff as int) + ls.subrange(eff + 1 as int, i as int)
                    },
                ),
            decreases n - i,
        {
            if i != eff {
                let ghost kept = if i <= eff {
                    ls.take(i as int)
                } else {
                    ls.take(eff as int) + ls.subrange(eff + 1 as int, i as int)
                };
                let line = &lines[i];
                push_range(&mut out, line, 0, line.len());
                out.push('\n');
                proof {
                    lemma_join_nl_push(kept, ls[i as int]);
                    assert(line@.subrange(0, line@.len() as int) =~= line@);
                    assert(out@ =~= join_nl(kept) + ls[i as int] + seq!['\n']);
                    if i < eff {
                        assert(kept.push(ls[i as int]) =~= ls.take(i + 1 as int));
                    } else {
                        assert(kept.push(ls[i as int]) =~= ls.take(eff as int) + ls.subrange(
                            eff + 1 as int,
                            i + 1 as int,
                        ));
                    }
                }
            } else {
                proof {
                    assert(ls.take(eff as int) + ls.subrange(eff + 1 as int, eff + 1 as int)
                        =~= ls.take(eff as int));
                }
            }
            i += 1;
        }
        let removed = chars_to_string(&lines[eff]);
        self.code = out;
        proof {
            assert(ls.subrange(eff + 1 as int, n as int) == ls.skip(eff + 1 as int));
        }
        Some(removed)
    }

    /// Evaluates every top-level form of the buffer in order against one
    /// fresh session and returns the rendering of their outcomes.
    pub fn eval(&self) -> (r: String)
        ensures
            exists|os: Seq<(Result<Seq<char>, Seq<char>>, Seq<char>)>| r@ == render_all(os),
    {
        let text = self.text();
        eval_source(text.as_str())
    }

    /// A response showing the buffer wrapped in the platform markup and,
    /// once the brackets balance, the wrapped rendering of its evaluation
    /// appended after it.
    pub fn respond(&self) -> (r: String)
        requires
            self@.len() <= u32::MAX,
        ensures
            opens(self@) != closes(self@) ==> r@ == wrap_spec(self@),
            opens(self@) == closes(self@) ==> exists|t: Seq<char>|
                r@ == wrap_spec(self@) + wrap_spec(t),
    {
        let mut response = self.as_discord_code();
        match self.balance() {
            Balanced::Yes => {
                let ev = self.eval();
                let wrapped = ev.as_discord_code();
                response.append(wrapped.as_str());
                proof {
                    assert(exists|t: Seq<char>| response@ == wrap_spec(self@) + wrap_spec(t)) by {
                        assert(response@ == wrap_spec(self@) + wrap_spec(ev@));
                    }
                }
            },
            _ => {},
        }
        response
    }
}

impl DiscordCode for UserCode {
    open spec fn code_text(&self) -> Seq<char> {
        self@
    }

    fn as_discord_code(&self) -> (r: String) {
        let text = self.text();
        wrap_markup(text.as_str())
    }

    fn strip_discord_code(&self) -> (r: String) {
        let text = self.text();
        strip_markup(text.as_str())
    }
}

} // verus!
