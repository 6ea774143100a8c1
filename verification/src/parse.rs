//! Splitting a command line into words and output redirections.
use vstd::prelude::*;

use crate::buffer::{is_meta, is_meta_char};
use crate::text::{chars_of, push_char};

verus! {

/// One piece of a parsed command line.
pub enum Fragment {
    /// A word of the command.
    Word(String),
    /// `fd>path` (truncating) or `fd>>path` (appending).
    RedirectFd { fd: i32, path: String, truncate: bool },
}

/// What a fragment holds, as values.
pub enum FragmentView {
    Word(Seq<char>),
    RedirectFd { fd: i32, path: Seq<char>, truncate: bool },
}

impl View for Fragment {
    type V = FragmentView;

    open spec fn view(&self) -> FragmentView {
        match self {
            Fragment::Word(w) => FragmentView::Word(w@),
            Fragment::RedirectFd { fd, path, truncate } => FragmentView::RedirectFd {
                fd: *fd,
                path: path@,
                truncate: *truncate,
            },
        }
    }
}

/// The fragments' views, in order.
pub open spec fn fragments_view(v: Seq<Fragment>) -> Seq<FragmentView> {
    v.map_values(|f: Fragment| f@)
}

/// Unicode white space, as `char::is_whitespace` and `str::trim` recognise it.
pub open spec fn is_unicode_space(c: char) -> bool {
    ||| ('\u{9}' <= c && c <= '\u{d}')
    ||| c == ' '
    ||| c == '\u{85}'
    ||| c == '\u{a0}'
    ||| c == '\u{1680}'
    ||| ('\u{2000}' <= c && c <= '\u{200a}')
    ||| c == '\u{2028}'
    ||| c == '\u{2029}'
    ||| c == '\u{202f}'
    ||| c == '\u{205f}'
    ||| c == '\u{3000}'
}

/// Index of the first character of `s` that is not white space, or `s.len()`.
pub open spec fn trim_start_index(s: Seq<char>) -> nat
    decreases s.len(),
{
    if s.len() > 0 && is_unicode_space(s[0]) {
        1 + trim_start_index(s.drop_first())
    } else {
        0
    }
}

/// One past the last character of `s` that is not white space, or 0.
pub open spec fn trim_end_index(s: Seq<char>) -> nat
    decreases s.len(),
{
    if s.len() > 0 && is_unicode_space(s.last()) {
        trim_end_index(s.drop_last())
    } else {
        s.len()
    }
}

/// `s` without leading and trailing white space.
pub open spec fn trim(s: Seq<char>) -> Seq<char> {
    let lo = trim_start_index(s);
    let hi = trim_end_index(s);
    if lo < hi {
        s.subrange(lo as int, hi as int)
    } else {
        Seq::empty()
    }
}

/// Whether a double quote or a backslash occurs in `s`.
pub open spec fn has_dq_special(s: Seq<char>) -> bool {
    exists|i: int| 0 <= i < s.len() && (s[i] == '"' || s[i] == '\\')
}

/// The characters that a backslash escapes inside double quotes.
pub open spec fn dq_escapable(c: char) -> bool {
    c == '"' || c == '\\' || c == '$' || c == '`' || c == '\n'
}

/// Index of the first occurrence of `c` in `s`.
pub open spec fn first_index(s: Seq<char>, c: char) -> Option<nat>
    decreases s.len(),
{
    if s.len() == 0 {
        None
    } else if s[0] == c {
        Some(0)
    } else {
        match first_index(s.drop_first(), c) {
            Some(i) => Some(i + 1),
            None => None,
        }
    }
}

/// `first_index` finds the first occurrence, when there is one.
pub proof fn lemma_first_index(s: Seq<char>, c: char)
    ensures
        match first_index(s, c) {
            Some(i) => i < s.len() && s[i as int] == c && forall|j: int| 0 <= j < i ==> s[j] != c,
            None => forall|j: int| 0 <= j < s.len() ==> s[j] != c,
        },
    decreases s.len(),
{
    if s.len() > 0 && s[0] != c {
        lemma_first_index(s.drop_first(), c);
        assert forall|j: int| 0 < j < s.len() implies s[j] == s.drop_first()[j - 1] by {}
    }
}

/// The fragment a finished word makes, given the pending redirection.
pub open spec fn fragment_of(meta: Option<(i32, bool)>, wrd: Seq<char>) -> FragmentView {
    match meta {
        Some((fd, truncate)) => FragmentView::RedirectFd { fd, path: wrd, truncate },
        None => FragmentView::Word(wrd),
    }
}

/// Whether an unquoted `c` ends the word being built and is then dropped: the
/// separators blank, tab, newline, `(`, `)`, `<`, `|`, `&` and `;`. The remaining
/// separator, `>`, ends the word too but starts a redirection.
pub open spec fn ends_word(c: char) -> bool {
    is_meta(c) && c != '>'
}

/// Whether a redirection operator starts `src`: `>`, `1>` or `2>`.
pub open spec fn starts_operator(src: Seq<char>) -> bool {
    ||| (src.len() > 0 && src[0] == '>')
    ||| seq!['1', '>'].is_prefix_of(src)
    ||| seq!['2', '>'].is_prefix_of(src)
}

/// The tokenizer, run on the rest `src` of the line. `in_dq` is set inside double
/// quotes, `wrd` is the word being built, `meta` the redirection (descriptor and
/// whether it truncates) that the next word is the target of, and `out` the fragments
/// so far. Unquoted separators end the word, and so does a redirection operator, `>`
/// or a descriptor digit followed by `>`. `None` when the tokenizer never stops: a lone
/// backslash ends the line outside of quotes.
pub open spec fn scan(
    src: Seq<char>,
    in_dq: bool,
    wrd: Seq<char>,
    meta: Option<(i32, bool)>,
    out: Seq<FragmentView>,
) -> Option<Seq<FragmentView>>
    decreases src.len(), if in_dq { 1int } else { 0int }, wrd.len(),
{
    if in_dq {
        if !has_dq_special(src) {
            // No closing quote: the rest is taken verbatim, then read again unquoted.
            scan(src, false, wrd + src, meta, out)
        } else if src[0] == '"' {
            scan(src.drop_first(), false, wrd, meta, out)
        } else if src[0] == '\\' {
            let rest = src.drop_first();
            if rest.len() == 0 {
                scan(rest, false, wrd, meta, out)
            } else {
                let c = rest[0];
                let w = if dq_escapable(c) {
                    wrd.push(c)
                } else {
                    wrd.push('\\').push(c)
                };
                scan(rest.drop_first(), true, w, meta, out)
            }
        } else {
            scan(src.drop_first(), true, wrd.push(src[0]), meta, out)
        }
    } else if src.len() == 0 || ends_word(src[0]) {
        let rest = if src.len() == 0 {
            src
        } else {
            src.drop_first()
        };
        if wrd.len() == 0 {
            if rest.len() == 0 {
                Some(out)
            } else {
                scan(rest, false, wrd, meta, out)
            }
        } else {
            let out2 = out.push(fragment_of(meta, wrd));
            if rest.len() == 0 {
                Some(out2)
            } else {
                scan(rest, false, Seq::empty(), None, out2)
            }
        }
    } else if starts_operator(src) && wrd.len() > 0 {
        // An operator ends the word being built, then is read.
        scan(src, false, Seq::empty(), None, out.push(fragment_of(meta, wrd)))
    } else if seq!['1', '>', '>'].is_prefix_of(src) {
        scan(src.skip(3), false, wrd, Some((1i32, false)), out)
    } else if seq!['>', '>'].is_prefix_of(src) {
        scan(src.skip(2), false, wrd, Some((1i32, false)), out)
    } else if seq!['2', '>', '>'].is_prefix_of(src) {
        scan(src.skip(3), false, wrd, Some((2i32, false)), out)
    } else if seq!['1', '>'].is_prefix_of(src) {
        scan(src.skip(2), false, wrd, Some((1i32, true)), out)
    } else if src[0] == '>' {
        scan(src.skip(1), false, wrd, Some((1i32, true)), out)
    } else if seq!['2', '>'].is_prefix_of(src) {
        scan(src.skip(2), false, wrd, Some((2i32, true)), out)
    } else if src[0] == '\'' {
        let sub = src.drop_first();
        proof {
            lemma_first_index(sub, '\'');
        }
        match first_index(sub, '\'') {
            Some(i) => scan(sub.skip(i + 1int), false, wrd + sub.take(i as int), meta, out),
            // No closing quote: the rest of the line, opening quote included.
            None => scan(Seq::empty(), false, wrd + src, meta, out),
        }
    } else if src[0] == '"' {
        scan(src.drop_first(), true, wrd, meta, out)
    } else if src[0] == '\\' {
        let sub = src.drop_first();
        if sub.len() == 0 {
            None
        } else {
            scan(sub.drop_first(), false, wrd.push(sub[0]), meta, out)
        }
    } else {
        scan(src.drop_first(), false, wrd.push(src[0]), meta, out)
    }
}

/// The fragments of `line`, or `None` when tokenizing it never stops.
pub open spec fn parse_spec(line: Seq<char>) -> Option<Seq<FragmentView>> {
    scan(trim(line), false, Seq::empty(), None, Seq::empty())
}


pub(crate) proof fn lemma_first_index_is(s: Seq<char>, c: char, i: int)
    requires
        0 <= i <= s.len(),
        i < s.len() ==> s[i] == c,
        forall|j: int| 0 <= j < i ==> s[j] != c,
    ensures
        first_index(s, c) == if i < s.len() { Some(i as nat) } else { None },
    decreases s.len(),
{
    if s.len() > 0 && i > 0 {
        lemma_first_index_is(s.drop_first(), c, i - 1);
    }
}

/// Whether `c` is white space, as `char::is_whitespace` decides.
pub fn is_whitespace(c: char) -> (r: bool)
    ensures
        r == is_unicode_space(c),
{
    ('\u{9}' <= c && c <= '\u{d}') || c == ' ' || c == '\u{85}' || c == '\u{a0}' || c == '\u{1680}'
        || ('\u{2000}' <= c && c <= '\u{200a}') || c == '\u{2028}' || c == '\u{2029}' || c
        == '\u{202f}' || c == '\u{205f}' || c == '\u{3000}'
}

/// Bounds of `v` without its leading and trailing white space.
fn trim_bounds(v: &Vec<char>) -> (r: (usize, usize))
    ensures
        r.0 <= r.1 <= v@.len(),
        v@.subrange(r.0 as int, r.1 as int) == trim(v@),
{
    let mut lo: usize = 0;
    proof {
        assert(v@.skip(0) =~= v@);
    }
    while lo < v.len() && is_whitespace(v[lo])
        invariant
            lo <= v@.len(),
            trim_start_index(v@) == lo + trim_start_index(v@.skip(lo as int)),
        decreases v@.len() - lo,
    {
        proof {
            assert(v@.skip(lo as int).drop_first() =~= v@.skip(lo + 1));
        }
        lo = lo + 1;
    }
    proof {
        if lo == v@.len() {
            assert(v@.skip(lo as int).len() == 0);
        }
    }
    let mut hi: usize = v.len();
    proof {
        assert(v@.take(hi as int) =~= v@);
    }
    while hi > 0 && is_whitespace(v[hi - 1])
        invariant
            hi <= v@.len(),
            trim_end_index(v@) == trim_end_index(v@.take(hi as int)),
        decreases hi,
    {
        proof {
            assert(v@.take(hi as int).drop_last() =~= v@.take(hi - 1));
        }
        hi = hi - 1;
    }
    if lo < hi {
        (lo, hi)
    } else {
        (0, 0)
    }
}

/// The tokenizer's state while it walks the trimmed line `c[..hi]`.
struct Scanner {
    c: Vec<char>,
    lo: usize,
    hi: usize,
    /// One past the last double quote or backslash in `c[lo..hi]`, or `lo`.
    special_end: usize,
    pos: usize,
    in_dq: bool,
    wrd: String,
    meta: Option<(i32, bool)>,
    out: Vec<Fragment>,
}

/// How a step of the tokenizer ended.
enum Step {
    Continue,
    Done,
    Stuck,
}

impl Scanner {
    spec fn inv(&self) -> bool {
        &&& self.lo <= self.pos <= self.hi <= self.c@.len()
        &&& self.lo <= self.special_end <= self.hi
        &&& forall|i: int|
            self.special_end <= i < self.hi ==> self.c@[i] != '"' && self.c@[i] != '\\'
        &&& self.special_end > self.lo ==> (self.c@[self.special_end - 1] == '"'
            || self.c@[self.special_end - 1] == '\\')
    }

    spec fn src(&self) -> Seq<char> {
        self.c@.subrange(self.pos as int, self.hi as int)
    }

    spec fn result(&self) -> Option<Seq<FragmentView>> {
        scan(self.src(), self.in_dq, self.wrd@, self.meta, fragments_view(self.out@))
    }

    spec fn measure(&self) -> int {
        (self.hi - self.pos) * 2 + if self.in_dq { 1int } else { 0int }
    }

    spec fn fixed(&self, other: &Scanner) -> bool {
        &&& self.c == other.c
        &&& self.lo == other.lo
        &&& self.hi == other.hi
        &&& self.special_end == other.special_end
    }

    /// Appends `c[from..to]` to the word.
    fn take_chars(&mut self, from: usize, to: usize)
        requires
            from <= to <= old(self).c@.len(),
        ensures
            final(self).wrd@ == old(self).wrd@ + old(self).c@.subrange(from as int, to as int),
            final(self).c == old(self).c,
            final(self).lo == old(self).lo,
            final(self).hi == old(self).hi,
            final(self).special_end == old(self).special_end,
            final(self).pos == old(self).pos,
            final(self).in_dq == old(self).in_dq,
            final(self).meta == old(self).meta,
            final(self).out == old(self).out,
    {
        let ghost w0 = self.wrd@;
        let mut j = from;
        while j < to
            invariant
                from <= j <= to <= self.c@.len(),
                self.wrd@ == w0 + self.c@.subrange(from as int, j as int),
                self.c == old(self).c,
                self.lo == old(self).lo,
                self.hi == old(self).hi,
                self.special_end == old(self).special_end,
                self.pos == old(self).pos,
                self.in_dq == old(self).in_dq,
                self.meta == old(self).meta,
                self.out == old(self).out,
            decreases to - j,
        {
            let ch = self.c[j];
            push_char(&mut self.wrd, ch);
            proof {
                assert(self.c@.subrange(from as int, j + 1) =~= self.c@.subrange(from as int, j as int).push(
                    self.c@[j as int],
                ));
            }
            j = j + 1;
        }
    }

    /// A step inside double quotes.
    fn step_dq(&mut self)
        requires
            old(self).inv(),
            old(self).in_dq,
        ensures
            final(self).inv(),
            final(self).fixed(old(self)),
            final(self).result() == old(self).result(),
            final(self).measure() < old(self).measure(),
    {
        let ghost src = self.src();
        let pos = self.pos;
        let hi = self.hi;
        proof {
            if pos < hi {
                assert(src[0] == self.c@[pos as int]);
                assert(src.drop_first() =~= self.c@.subrange(pos + 1, hi as int));
            }
        }
        if pos >= self.special_end {
            proof {
                assert(!has_dq_special(src)) by {
                    assert forall|i: int| 0 <= i < src.len() implies !(src[i] == '"' || src[i]
                        == '\\') by {
                        assert(src[i] == self.c@[pos + i]);
                    }
                }
            }
            self.take_chars(pos, hi);
            self.in_dq = false;
            return ;
        }
        proof {
            assert(has_dq_special(src)) by {
                assert(src[self.special_end - 1 - pos] == self.c@[self.special_end - 1]);
            }
        }
        let ch = self.c[pos];
        if ch == '"' {
            self.pos = pos + 1;
            self.in_dq = false;
        } else if ch == '\\' {
            if pos + 1 == hi {
                self.pos = hi;
                self.in_dq = false;
            } else {
                let e = self.c[pos + 1];
                proof {
                    assert(src.drop_first()[0] == e);
                    assert(src.drop_first().drop_first() =~= self.c@.subrange(pos + 2, hi as int));
                }
                if !(e == '"' || e == '\\' || e == '$' || e == '`' || e == '\n') {
                    push_char(&mut self.wrd, '\\');
                }
                push_char(&mut self.wrd, e);
                self.pos = pos + 2;
            }
        } else {
            push_char(&mut self.wrd, ch);
            self.pos = pos + 1;
        }
    }

    /// Ends the word being built, making it a fragment with the pending redirection.
    fn close_word(&mut self)
        requires
            old(self).inv(),
        ensures
            final(self).inv(),
            final(self).fixed(old(self)),
            final(self).pos == old(self).pos,
            final(self).in_dq == old(self).in_dq,
            final(self).wrd@ == Seq::<char>::empty(),
            final(self).meta is None,
            fragments_view(final(self).out@) == fragments_view(old(self).out@).push(
                fragment_of(old(self).meta, old(self).wrd@),
            ),
    {
        let mut w = String::new();
        std::mem::swap(&mut w, &mut self.wrd);
        let m = self.meta;
        self.meta = None;
        let f = match m {
            Some((fd, truncate)) => Fragment::RedirectFd { fd, path: w, truncate },
            None => Fragment::Word(w),
        };
        proof {
            assert(f@ == fragment_of(m, w@));
        }
        let ghost before = self.out@;
        self.out.push(f);
        proof {
            assert(fragments_view(self.out@) =~= fragments_view(before).push(f@));
        }
    }

    /// A step on a blank, or at the end of the line, outside double quotes.
    fn step_blank(&mut self) -> (r: Step)
        requires
            old(self).inv(),
            !old(self).in_dq,
            old(self).pos == old(self).hi || ends_word(old(self).c@[old(self).pos as int]),
        ensures
            match r {
                Step::Continue => final(self).inv() && final(self).fixed(old(self))
                    && final(self).result() == old(self).result() && final(self).measure()
                    < old(self).measure(),
                Step::Done => old(self).result() == Some(fragments_view(final(self).out@)),
                Step::Stuck => false,
            },
    {
        let ghost src = self.src();
        let hi = self.hi;
        proof {
            if self.pos < hi {
                assert(src[0] == self.c@[self.pos as int]);
                assert(src.drop_first() =~= self.c@.subrange(self.pos + 1, hi as int));
            }
        }
        if self.pos < hi {
            self.pos = self.pos + 1;
        }
        proof {
            if self.pos == hi {
                assert(self.c@.subrange(self.pos as int, hi as int).len() == 0);
            }
        }
        if self.wrd.as_str().is_empty() {
            if self.pos == hi {
                return Step::Done;
            }
            return Step::Continue;
        }
        let mut w = String::new();
        std::mem::swap(&mut w, &mut self.wrd);
        let m = self.meta;
        self.meta = None;
        let f = match m {
            Some((fd, truncate)) => Fragment::RedirectFd { fd, path: w, truncate },
            None => Fragment::Word(w),
        };
        proof {
            assert(f@ == fragment_of(m, w@));
        }
        let ghost before = self.out@;
        self.out.push(f);
        proof {
            assert(fragments_view(self.out@) =~= fragments_view(before).push(f@));
        }
        if self.pos == hi {
            Step::Done
        } else {
            Step::Continue
        }
    }
}

/// Splits `line` into words and redirections the way the shell reads a command: the
/// unquoted separators (blank, tab, newline, `(`, `)`, `<`, `>`, `|`, `&`, `;`) end
/// words, single quotes keep everything literally, double quotes keep everything but
/// `\"`, `\\`, `\$`, `` \` `` and an escaped newline, a backslash outside quotes
/// keeps the next character, and `>`, `1>`, `2>` (`>>`, `1>>`, `2>>` to append) end
/// the word before them and make the next word a redirection target. `None` for a line on which the
/// tokenizer never stops: one ending, after quotes are read, in a lone backslash.
pub fn try_parse_line(line: &str) -> (r: Option<Vec<Fragment>>)
    ensures
        match r {
            Some(v) => parse_spec(line@) == Some(fragments_view(v@)),
            None => parse_spec(line@) is None,
        },
{
    let c = chars_of(line);
    let (lo, hi) = trim_bounds(&c);
    let mut special_end: usize = hi;
    while special_end > lo && c[special_end - 1] != '"' && c[special_end - 1] != '\\'
        invariant
            lo <= special_end <= hi <= c@.len(),
            forall|i: int| special_end <= i < hi ==> c@[i] != '"' && c@[i] != '\\',
        decreases special_end,
    {
        special_end = special_end - 1;
    }
    let mut sc = Scanner {
        c,
        lo,
        hi,
        special_end,
        pos: lo,
        in_dq: false,
        wrd: String::new(),
        meta: None,
        out: Vec::new(),
    };
    proof {
        assert(fragments_view(sc.out@) =~= Seq::<FragmentView>::empty());
    }
    loop
        invariant
            sc.inv(),
            sc.result() == parse_spec(line@),
        decreases sc.measure(),
    {
        match sc.step() {
            Step::Continue => {},
            Step::Done => {
                return Some(sc.out);
            },
            Step::Stuck => {
                return None;
            },
        }
    }
}

impl Scanner {
    /// One step of the tokenizer.
    fn step(&mut self) -> (r: Step)
        requires
            old(self).inv(),
        ensures
            match r {
                Step::Continue => final(self).inv() && final(self).fixed(old(self))
                    && final(self).result() == old(self).result() && final(self).measure()
                    < old(self).measure(),
                Step::Done => old(self).result() == Some(fragments_view(final(self).out@)),
                Step::Stuck => old(self).result() is None,
            },
    {
        if self.in_dq {
            self.step_dq();
            return Step::Continue;
        }
        let pos = self.pos;
        let hi = self.hi;
        if pos == hi || (is_meta_char(self.c[pos]) && self.c[pos] != '>') {
            return self.step_blank();
        }
        let op = self.c[pos] == '>' || (hi - pos > 1 && (self.c[pos] == '1' || self.c[pos] == '2')
            && self.c[pos + 1] == '>');
        proof {
            let src = self.src();
            assert(src[0] == self.c@[pos as int]);
            if hi - pos > 1 {
                assert(src[1] == self.c@[pos + 1]);
            }
            if seq!['1', '>'].is_prefix_of(src) {
                assert(src.subrange(0, 2)[0] == src[0]);
                assert(src.subrange(0, 2)[1] == src[1]);
            }
            if seq!['2', '>'].is_prefix_of(src) {
                assert(src.subrange(0, 2)[0] == src[0]);
                assert(src.subrange(0, 2)[1] == src[1]);
            }
            if hi - pos > 1 && self.c@[pos as int] == '1' && self.c@[pos + 1] == '>' {
                assert(src.subrange(0, 2) =~= seq!['1', '>']);
            }
            if hi - pos > 1 && self.c@[pos as int] == '2' && self.c@[pos + 1] == '>' {
                assert(src.subrange(0, 2) =~= seq!['2', '>']);
            }
            assert(op == starts_operator(src));
        }
        if op && !self.wrd.as_str().is_empty() {
            let ghost before = self.result();
            self.close_word();
            proof {
                assert(self.src() == old(self).src());
                assert(self.result() == before);
            }
        }
        let n = self.redirect_len();
        if n > 0 {
            return Step::Continue;
        }
        self.step_word()
    }
}

/// No redirection operator starts `src`.
pub open spec fn no_redirect_prefix(src: Seq<char>) -> bool {
    &&& !seq!['1', '>', '>'].is_prefix_of(src)
    &&& !seq!['>', '>'].is_prefix_of(src)
    &&& !seq!['2', '>', '>'].is_prefix_of(src)
    &&& !seq!['1', '>'].is_prefix_of(src)
    &&& !(src.len() > 0 && src[0] == '>')
    &&& !seq!['2', '>'].is_prefix_of(src)
}

impl Scanner {
    /// Reads a redirection operator, if one starts the rest of the line, and returns
    /// its length, or 0 when there is none.
    fn redirect_len(&mut self) -> (n: usize)
        requires
            old(self).inv(),
            !old(self).in_dq,
            old(self).pos < old(self).hi,
            !ends_word(old(self).c@[old(self).pos as int]),
            starts_operator(old(self).src()) ==> old(self).wrd@.len() == 0,
        ensures
            n == 0 ==> *final(self) == *old(self) && no_redirect_prefix(old(self).src()),
            n > 0 ==> final(self).inv() && final(self).fixed(old(self)) && final(self).result()
                == old(self).result() && final(self).measure() < old(self).measure(),
    {
        let ghost src = self.src();
        let pos = self.pos;
        let hi = self.hi;
        let c0 = self.c[pos];
        let c1 = if hi - pos > 1 { self.c[pos + 1] } else { ' ' };
        let c2 = if hi - pos > 2 { self.c[pos + 2] } else { ' ' };
        proof {
            assert(src[0] == c0);
            if hi - pos > 1 {
                assert(src[1] == c1);
            }
            if hi - pos > 2 {
                assert(src[2] == c2);
            }
            assert(seq!['1', '>', '>'].is_prefix_of(src) <==> (hi - pos > 2 && c0 == '1' && c1
                == '>' && c2 == '>')) by {
                if seq!['1', '>', '>'].is_prefix_of(src) {
                    assert(src.subrange(0, 3)[0] == src[0]);
                    assert(src.subrange(0, 3)[1] == src[1]);
                    assert(src.subrange(0, 3)[2] == src[2]);
                }
                if hi - pos > 2 && c0 == '1' && c1 == '>' && c2 == '>' {
                    assert(seq!['1', '>', '>'] =~= src.subrange(0, 3));
                }
            }
            assert(seq!['2', '>', '>'].is_prefix_of(src) <==> (hi - pos > 2 && c0 == '2' && c1
                == '>' && c2 == '>')) by {
                if seq!['2', '>', '>'].is_prefix_of(src) {
                    assert(src.subrange(0, 3)[0] == src[0]);
                    assert(src.subrange(0, 3)[1] == src[1]);
                    assert(src.subrange(0, 3)[2] == src[2]);
                }
                if hi - pos > 2 && c0 == '2' && c1 == '>' && c2 == '>' {
                    assert(seq!['2', '>', '>'] =~= src.subrange(0, 3));
                }
            }
            assert(seq!['>', '>'].is_prefix_of(src) <==> (hi - pos > 1 && c0 == '>' && c1
                == '>')) by {
                if seq!['>', '>'].is_prefix_of(src) {
                    assert(src.subrange(0, 2)[0] == src[0]);
                    assert(src.subrange(0, 2)[1] == src[1]);
                }
                if hi - pos > 1 && c0 == '>' && c1 == '>' {
                    assert(seq!['>', '>'] =~= src.subrange(0, 2));
                }
            }
            assert(seq!['1', '>'].is_prefix_of(src) <==> (hi - pos > 1 && c0 == '1' && c1
                == '>')) by {
                if seq!['1', '>'].is_prefix_of(src) {
                    assert(src.subrange(0, 2)[0] == src[0]);
                    assert(src.subrange(0, 2)[1] == src[1]);
                }
                if hi - pos > 1 && c0 == '1' && c1 == '>' {
                    assert(seq!['1', '>'] =~= src.subrange(0, 2));
                }
            }
            assert(seq!['2', '>'].is_prefix_of(src) <==> (hi - pos > 1 && c0 == '2' && c1
                == '>')) by {
                if seq!['2', '>'].is_prefix_of(src) {
                    assert(src.subrange(0, 2)[0] == src[0]);
                    assert(src.subrange(0, 2)[1] == src[1]);
                }
                if hi - pos > 1 && c0 == '2' && c1 == '>' {
                    assert(seq!['2', '>'] =~= src.subrange(0, 2));
                }
            }
        }
        let (n, m): (usize, Option<(i32, bool)>) = if hi - pos > 2 && c0 == '1' && c1 == '>' && c2
            == '>' {
            (3, Some((1, false)))
        } else if hi - pos > 1 && c0 == '>' && c1 == '>' {
            (2, Some((1, false)))
        } else if hi - pos > 2 && c0 == '2' && c1 == '>' && c2 == '>' {
            (3, Some((2, false)))
        } else if hi - pos > 1 && c0 == '1' && c1 == '>' {
            (2, Some((1, true)))
        } else if c0 == '>' {
            (1, Some((1, true)))
        } else if hi - pos > 1 && c0 == '2' && c1 == '>' {
            (2, Some((2, true)))
        } else {
            (0, None)
        };
        if n > 0 {
            proof {
                assert(src.skip(n as int) =~= self.c@.subrange(pos + n, hi as int));
            }
            self.meta = m;
            self.pos = pos + n;
        }
        n
    }

    /// A step on a character that starts neither a blank nor a redirection, outside
    /// double quotes.
    fn step_word(&mut self) -> (r: Step)
        requires
            old(self).inv(),
            !old(self).in_dq,
            old(self).pos < old(self).hi,
            !ends_word(old(self).c@[old(self).pos as int]),
            no_redirect_prefix(old(self).src()),
        ensures
            match r {
                Step::Continue => final(self).inv() && final(self).fixed(old(self))
                    && final(self).result() == old(self).result() && final(self).measure()
                    < old(self).measure(),
                Step::Done => false,
                Step::Stuck => old(self).result() is None,
            },
    {
        let ghost src = self.src();
        let pos = self.pos;
        let hi = self.hi;
        let ch = self.c[pos];
        proof {
            assert(src[0] == ch);
            assert(src.drop_first() =~= self.c@.subrange(pos + 1, hi as int));
        }
        if ch == '\'' {
            let mut j = pos + 1;
            while j < hi && self.c[j] != '\''
                invariant
                    self.inv(),
                    pos + 1 <= j <= hi,
                    hi == self.hi,
                    forall|t: int| pos + 1 <= t < j ==> self.c@[t] != '\'',
                decreases hi - j,
            {
                j = j + 1;
            }
            let ghost sub = src.drop_first();
            proof {
                assert forall|t: int| 0 <= t < j - pos - 1 implies sub[t] != '\'' by {
                    assert(sub[t] == self.c@[pos + 1 + t]);
                }
                if j < hi {
                    assert(sub[j - pos - 1] == self.c@[j as int]);
                }
                lemma_first_index_is(sub, '\'', j - pos - 1);
            }
            if j < hi {
                self.take_chars(pos + 1, j);
                proof {
                    assert(sub.take(j - pos - 1) =~= self.c@.subrange(pos + 1, j as int));
                    assert(sub.skip(j - pos - 1 + 1) =~= self.c@.subrange(j + 1, hi as int));
                }
                self.pos = j + 1;
            } else {
                self.take_chars(pos, hi);
                proof {
                    assert(self.c@.subrange(hi as int, hi as int) =~= Seq::<char>::empty());
                }
                self.pos = hi;
            }
            Step::Continue
        } else if ch == '"' {
            self.in_dq = true;
            self.pos = pos + 1;
            Step::Continue
        } else if ch == '\\' {
            if pos + 1 == hi {
                return Step::Stuck;
            }
            let e = self.c[pos + 1];
            proof {
                assert(src.drop_first()[0] == e);
                assert(src.drop_first().drop_first() =~= self.c@.subrange(pos + 2, hi as int));
            }
            push_char(&mut self.wrd, e);
            self.pos = pos + 2;
            Step::Continue
        } else {
            push_char(&mut self.wrd, ch);
            self.pos = pos + 1;
            Step::Continue
        }
    }
}

/// A fragment whose word, or redirection target, is not empty, and whose redirection
/// names standard output or standard error.
pub open spec fn fragment_well_formed(f: FragmentView) -> bool {
    match f {
        FragmentView::Word(w) => w.len() > 0,
        FragmentView::RedirectFd { fd, path, .. } => path.len() > 0 && (fd == 1 || fd == 2),
    }
}

proof fn lemma_scan_well_formed(
    src: Seq<char>,
    in_dq: bool,
    wrd: Seq<char>,
    meta: Option<(i32, bool)>,
    out: Seq<FragmentView>,
)
    requires
        forall|i: int| 0 <= i < out.len() ==> #[trigger] fragment_well_formed(out[i]),
        meta matches Some((fd, _)) ==> fd == 1 || fd == 2,
    ensures
        scan(src, in_dq, wrd, meta, out) matches Some(fs) ==> forall|i: int|
            0 <= i < fs.len() ==> #[trigger] fragment_well_formed(fs[i]),
    decreases src.len(), if in_dq { 1int } else { 0int }, wrd.len(),
{
    if in_dq {
        if !has_dq_special(src) {
            lemma_scan_well_formed(src, false, wrd + src, meta, out);
        } else if src[0] == '"' {
            lemma_scan_well_formed(src.drop_first(), false, wrd, meta, out);
        } else if src[0] == '\\' {
            let rest = src.drop_first();
            if rest.len() == 0 {
                lemma_scan_well_formed(rest, false, wrd, meta, out);
            } else {
                let c = rest[0];
                let w = if dq_escapable(c) {
                    wrd.push(c)
                } else {
                    wrd.push('\\').push(c)
                };
                lemma_scan_well_formed(rest.drop_first(), true, w, meta, out);
            }
        } else {
            lemma_scan_well_formed(src.drop_first(), true, wrd.push(src[0]), meta, out);
        }
    } else if src.len() == 0 || ends_word(src[0]) {
        let rest = if src.len() == 0 {
            src
        } else {
            src.drop_first()
        };
        if wrd.len() == 0 {
            if rest.len() > 0 {
                lemma_scan_well_formed(rest, false, wrd, meta, out);
            }
        } else {
            let out2 = out.push(fragment_of(meta, wrd));
            assert forall|i: int| 0 <= i < out2.len() implies #[trigger] fragment_well_formed(
                out2[i],
            ) by {
                if i < out.len() {
                    assert(out2[i] == out[i]);
                }
            }
            if rest.len() > 0 {
                lemma_scan_well_formed(rest, false, Seq::empty(), None, out2);
            }
        }
    } else if starts_operator(src) && wrd.len() > 0 {
        let out2 = out.push(fragment_of(meta, wrd));
        assert forall|i: int| 0 <= i < out2.len() implies #[trigger] fragment_well_formed(
            out2[i],
        ) by {
            if i < out.len() {
                assert(out2[i] == out[i]);
            }
        }
        lemma_scan_well_formed(src, false, Seq::empty(), None, out2);
    } else if seq!['1', '>', '>'].is_prefix_of(src) {
        lemma_scan_well_formed(src.skip(3), false, wrd, Some((1i32, false)), out);
    } else if seq!['>', '>'].is_prefix_of(src) {
        lemma_scan_well_formed(src.skip(2), false, wrd, Some((1i32, false)), out);
    } else if seq!['2', '>', '>'].is_prefix_of(src) {
        lemma_scan_well_formed(src.skip(3), false, wrd, Some((2i32, false)), out);
    } else if seq!['1', '>'].is_prefix_of(src) {
        lemma_scan_well_formed(src.skip(2), false, wrd, Some((1i32, true)), out);
    } else if src[0] == '>' {
        lemma_scan_well_formed(src.skip(1), false, wrd, Some((1i32, true)), out);
    } else if seq!['2', '>'].is_prefix_of(src) {
        lemma_scan_well_formed(src.skip(2), false, wrd, Some((2i32, true)), out);
    } else if src[0] == '\'' {
        let sub = src.drop_first();
        lemma_first_index(sub, '\'');
        match first_index(sub, '\'') {
            Some(i) => lemma_scan_well_formed(
                sub.skip(i + 1int),
                false,
                wrd + sub.take(i as int),
                meta,
                out,
            ),
            None => lemma_scan_well_formed(Seq::empty(), false, wrd + src, meta, out),
        }
    } else if src[0] == '"' {
        lemma_scan_well_formed(src.drop_first(), true, wrd, meta, out);
    } else if src[0] == '\\' {
        let sub = src.drop_first();
        if sub.len() > 0 {
            lemma_scan_well_formed(sub.drop_first(), false, wrd.push(sub[0]), meta, out);
        }
    } else {
        lemma_scan_well_formed(src.drop_first(), false, wrd.push(src[0]), meta, out);
    }
}

/// The tokenizer never makes an empty word or an empty redirection target: quotes
/// with nothing between them add nothing, and a redirection with no word after it is
/// dropped. Every redirection is of descriptor 1 or 2.
pub proof fn lemma_parse_fragments_well_formed(line: Seq<char>)
    ensures
        parse_spec(line) matches Some(fs) ==> forall|i: int|
            0 <= i < fs.len() ==> #[trigger] fragment_well_formed(fs[i]),
{
    lemma_scan_well_formed(trim(line), false, Seq::empty(), None, Seq::empty());
}

/// A character with no meaning to the tokenizer: not white space, not a quote, not a
/// backslash, not a separator.
pub open spec fn plain_char(c: char) -> bool {
    !is_unicode_space(c) && c != '\'' && c != '"' && c != '\\' && !is_meta(c)
}

/// A nonempty run of blanks and tabs.
pub open spec fn blank_run(g: Seq<char>) -> bool {
    g.len() > 0 && forall|i: int| 0 <= i < g.len() ==> (#[trigger] g[i] == ' ' || g[i] == '\t')
}

/// White space only.
pub open spec fn all_space(g: Seq<char>) -> bool {
    forall|i: int| 0 <= i < g.len() ==> #[trigger] is_unicode_space(g[i])
}

/// The words `ws` with the run `gaps[i]` between `ws[i]` and `ws[i + 1]`.
pub open spec fn spaced(ws: Seq<Seq<char>>, gaps: Seq<Seq<char>>) -> Seq<char>
    decreases ws.len(),
{
    if ws.len() == 0 {
        Seq::empty()
    } else if ws.len() == 1 {
        ws[0]
    } else {
        ws[0] + gaps[0] + spaced(ws.drop_first(), gaps.drop_first())
    }
}

/// Words of plain characters.
pub open spec fn plain_words(ws: Seq<Seq<char>>) -> bool {
    forall|i: int, j: int|
        0 <= i < ws.len() && 0 <= j < ws[i].len() ==> #[trigger] plain_char(ws[i][j])
}

proof fn lemma_scan_plain(
    w: Seq<char>,
    rest: Seq<char>,
    wrd: Seq<char>,
    meta: Option<(i32, bool)>,
    out: Seq<FragmentView>,
)
    requires
        forall|j: int| 0 <= j < w.len() ==> #[trigger] plain_char(w[j]),
        rest.len() == 0 || rest[0] == ' ' || rest[0] == '\t',
    ensures
        scan(w + rest, false, wrd, meta, out) == scan(rest, false, wrd + w, meta, out),
    decreases w.len(),
{
    if w.len() == 0 {
        assert(w + rest =~= rest);
        assert(wrd + w =~= wrd);
    } else {
        let src = w + rest;
        assert(src[0] == w[0]);
        assert(plain_char(w[0]));
        if src.len() > 1 {
            if w.len() > 1 {
                assert(src[1] == w[1]);
                assert(plain_char(w[1]));
            } else {
                assert(src[1] == rest[0]);
            }
        }
        assert(!seq!['1', '>', '>'].is_prefix_of(src)) by {
            if seq!['1', '>', '>'].is_prefix_of(src) {
                assert(src.subrange(0, 3)[1] == src[1]);
            }
        }
        assert(!seq!['>', '>'].is_prefix_of(src)) by {
            if seq!['>', '>'].is_prefix_of(src) {
                assert(src.subrange(0, 2)[0] == src[0]);
            }
        }
        assert(!seq!['2', '>', '>'].is_prefix_of(src)) by {
            if seq!['2', '>', '>'].is_prefix_of(src) {
                assert(src.subrange(0, 3)[1] == src[1]);
            }
        }
        assert(!seq!['1', '>'].is_prefix_of(src)) by {
            if seq!['1', '>'].is_prefix_of(src) {
                assert(src.subrange(0, 2)[1] == src[1]);
            }
        }
        assert(!seq!['2', '>'].is_prefix_of(src)) by {
            if seq!['2', '>'].is_prefix_of(src) {
                assert(src.subrange(0, 2)[1] == src[1]);
            }
        }
        assert(src.drop_first() =~= w.drop_first() + rest);
        lemma_scan_plain(w.drop_first(), rest, wrd.push(w[0]), meta, out);
        assert(wrd.push(w[0]) + w.drop_first() =~= wrd + w);
    }
}

proof fn lemma_scan_blanks(g: Seq<char>, rest: Seq<char>, out: Seq<FragmentView>)
    requires
        rest.len() > 0,
        forall|i: int| 0 <= i < g.len() ==> (#[trigger] g[i] == ' ' || g[i] == '\t'),
    ensures
        scan(g + rest, false, Seq::empty(), None, out) == scan(rest, false, Seq::empty(), None, out),
    decreases g.len(),
{
    if g.len() == 0 {
        assert(g + rest =~= rest);
    } else {
        let src = g + rest;
        assert(src[0] == g[0]);
        assert(src.drop_first() =~= g.drop_first() + rest);
        assert forall|i: int| 0 <= i < g.drop_first().len() implies (#[trigger] g.drop_first()[i]
            == ' ' || g.drop_first()[i] == '\t') by {
            assert(g.drop_first()[i] == g[i + 1]);
        }
        lemma_scan_blanks(g.drop_first(), rest, out);
    }
}

proof fn lemma_spaced_shape(ws: Seq<Seq<char>>, gaps: Seq<Seq<char>>)
    requires
        ws.len() > 0,
        forall|i: int| 0 <= i < ws.len() ==> #[trigger] ws[i].len() > 0,
    ensures
        spaced(ws, gaps).len() > 0,
        spaced(ws, gaps)[0] == ws[0][0],
        spaced(ws, gaps).last() == ws.last().last(),
    decreases ws.len(),
{
    if ws.len() > 1 {
        let tail = ws.drop_first();
        assert forall|i: int| 0 <= i < tail.len() implies #[trigger] tail[i].len() > 0 by {
            assert(tail[i] == ws[i + 1]);
        }
        lemma_spaced_shape(tail, gaps.drop_first());
        let s = ws[0] + gaps[0] + spaced(tail, gaps.drop_first());
        assert(s[0] == ws[0][0]);
        assert(s.last() == spaced(tail, gaps.drop_first()).last());
    }
}

proof fn lemma_scan_spaced(ws: Seq<Seq<char>>, gaps: Seq<Seq<char>>, out: Seq<FragmentView>)
    requires
        ws.len() > 0,
        gaps.len() + 1 == ws.len(),
        forall|i: int| 0 <= i < gaps.len() ==> #[trigger] blank_run(gaps[i]),
        forall|i: int| 0 <= i < ws.len() ==> #[trigger] ws[i].len() > 0,
        plain_words(ws),
    ensures
        scan(spaced(ws, gaps), false, Seq::empty(), None, out) == Some(
            out + ws.map_values(|w: Seq<char>| FragmentView::Word(w)),
        ),
    decreases ws.len(),
{
    let w = ws[0];
    assert forall|j: int| 0 <= j < w.len() implies #[trigger] plain_char(w[j]) by {
        assert(plain_char(ws[0][j]));
    }
    if ws.len() == 1 {
        assert(spaced(ws, gaps) =~= w + Seq::<char>::empty());
        lemma_scan_plain(w, Seq::empty(), Seq::empty(), None, out);
        assert(Seq::<char>::empty() + w =~= w);
        assert(out + ws.map_values(|w: Seq<char>| FragmentView::Word(w)) =~= out.push(
            FragmentView::Word(w),
        ));
    } else {
        let tail = ws.drop_first();
        let gt = gaps.drop_first();
        let rest = spaced(tail, gt);
        assert forall|i: int| 0 <= i < tail.len() implies #[trigger] tail[i].len() > 0 by {
            assert(tail[i] == ws[i + 1]);
        }
        assert forall|i: int| 0 <= i < gt.len() implies #[trigger] blank_run(gt[i]) by {
            assert(gt[i] == gaps[i + 1]);
        }
        assert(plain_words(tail)) by {
            assert forall|i: int, j: int| 0 <= i < tail.len() && 0 <= j < tail[i].len() implies #[trigger] plain_char(
                tail[i][j],
            ) by {
                assert(tail[i] == ws[i + 1]);
                assert(plain_char(ws[i + 1][j]));
            }
        }
        lemma_spaced_shape(tail, gt);
        let g = gaps[0];
        assert(blank_run(g));
        let after = g + rest;
        assert(after[0] == g[0]);
        assert(g[0] == ' ' || g[0] == '\t');
        assert(spaced(ws, gaps) =~= w + after);
        lemma_scan_plain(w, after, Seq::empty(), None, out);
        assert(Seq::<char>::empty() + w =~= w);
        let out2 = out.push(FragmentView::Word(w));
        assert(after.drop_first() =~= g.drop_first() + rest);
        assert forall|i: int| 0 <= i < g.drop_first().len() implies (#[trigger] g.drop_first()[i]
            == ' ' || g.drop_first()[i] == '\t') by {
            assert(g.drop_first()[i] == g[i + 1]);
        }
        lemma_scan_blanks(g.drop_first(), rest, out2);
        lemma_scan_spaced(tail, gt, out2);
        assert(out2 + tail.map_values(|w: Seq<char>| FragmentView::Word(w)) =~= out + ws.map_values(
            |w: Seq<char>| FragmentView::Word(w),
        ));
    }
}

proof fn lemma_trim_start(lead: Seq<char>, s: Seq<char>)
    requires
        all_space(lead),
        s.len() > 0,
        !is_unicode_space(s[0]),
    ensures
        trim_start_index(lead + s) == lead.len(),
    decreases lead.len(),
{
    if lead.len() == 0 {
        assert(lead + s =~= s);
    } else {
        assert((lead + s)[0] == lead[0]);
        assert((lead + s).drop_first() =~= lead.drop_first() + s);
        assert(all_space(lead.drop_first())) by {
            assert forall|i: int| 0 <= i < lead.drop_first().len() implies #[trigger] is_unicode_space(
                lead.drop_first()[i],
            ) by {
                assert(lead.drop_first()[i] == lead[i + 1]);
            }
        }
        lemma_trim_start(lead.drop_first(), s);
    }
}

proof fn lemma_trim_end(s: Seq<char>, trail: Seq<char>)
    requires
        all_space(trail),
        s.len() > 0,
        !is_unicode_space(s.last()),
    ensures
        trim_end_index(s + trail) == s.len(),
    decreases trail.len(),
{
    if trail.len() == 0 {
        assert(s + trail =~= s);
    } else {
        assert((s + trail).last() == trail.last());
        assert((s + trail).drop_last() =~= s + trail.drop_last());
        assert(all_space(trail.drop_last())) by {
            assert forall|i: int| 0 <= i < trail.drop_last().len() implies #[trigger] is_unicode_space(
                trail.drop_last()[i],
            ) by {
                assert(trail.drop_last()[i] == trail[i]);
            }
        }
        lemma_trim_end(s, trail.drop_last());
    }
}

proof fn lemma_trim_start_all_space(g: Seq<char>)
    requires
        all_space(g),
    ensures
        trim_start_index(g) == g.len(),
    decreases g.len(),
{
    if g.len() > 0 {
        assert(is_unicode_space(g[0]));
        assert(all_space(g.drop_first())) by {
            assert forall|i: int| 0 <= i < g.drop_first().len() implies #[trigger] is_unicode_space(
                g.drop_first()[i],
            ) by {
                assert(g.drop_first()[i] == g[i + 1]);
            }
        }
        lemma_trim_start_all_space(g.drop_first());
    }
}

proof fn lemma_trim_end_bound(g: Seq<char>)
    ensures
        trim_end_index(g) <= g.len(),
    decreases g.len(),
{
    if g.len() > 0 {
        lemma_trim_end_bound(g.drop_last());
    }
}

/// A line of white space only gives no fragment.
pub proof fn lemma_parse_blank_line(line: Seq<char>)
    requires
        all_space(line),
    ensures
        parse_spec(line) == Some(Seq::<FragmentView>::empty()),
{
    lemma_trim_start_all_space(line);
    lemma_trim_end_bound(line);
    assert(trim(line) =~= Seq::<char>::empty());
}

/// Whether `c` is a blank or a tab.
pub open spec fn is_blank(c: char) -> bool {
    c == ' ' || c == '\t'
}

/// The pieces of `src` between blanks and tabs, empty ones dropped, `wrd` being the
/// piece read so far.
pub open spec fn blank_split(src: Seq<char>, wrd: Seq<char>) -> Seq<Seq<char>>
    decreases src.len(),
{
    if src.len() == 0 {
        if wrd.len() == 0 {
            Seq::empty()
        } else {
            seq![wrd]
        }
    } else if is_blank(src[0]) {
        let rest = blank_split(src.drop_first(), Seq::empty());
        if wrd.len() == 0 {
            rest
        } else {
            seq![wrd] + rest
        }
    } else {
        blank_split(src.drop_first(), wrd.push(src[0]))
    }
}

/// Plain characters, blanks and tabs only.
pub open spec fn plain_or_blank(s: Seq<char>) -> bool {
    forall|i: int| 0 <= i < s.len() ==> plain_char(#[trigger] s[i]) || is_blank(s[i])
}

proof fn lemma_scan_split(src: Seq<char>, wrd: Seq<char>, out: Seq<FragmentView>)
    requires
        plain_or_blank(src),
    ensures
        scan(src, false, wrd, None, out) == Some(
            out + blank_split(src, wrd).map_values(|w: Seq<char>| FragmentView::Word(w)),
        ),
    decreases src.len(),
{
    if src.len() == 0 {
        if wrd.len() > 0 {
            assert(out + seq![wrd].map_values(|w: Seq<char>| FragmentView::Word(w)) =~= out.push(
                FragmentView::Word(wrd),
            ));
        } else {
            assert(out + Seq::<Seq<char>>::empty().map_values(|w: Seq<char>| FragmentView::Word(w))
                =~= out);
        }
        return;
    }
    let rest = src.drop_first();
    if src.len() > 0 {
        assert(plain_or_blank(rest)) by {
            assert forall|i: int| 0 <= i < rest.len() implies plain_char(#[trigger] rest[i])
                || is_blank(rest[i]) by {
                assert(rest[i] == src[i + 1]);
            }
        }
        assert(plain_char(src[0]) || is_blank(src[0]));
    }
    if is_blank(src[0]) {
        assert(ends_word(src[0]));
        if wrd.len() == 0 {
            assert(wrd =~= Seq::<char>::empty());
        }
        let rs = blank_split(rest, Seq::empty());
        if rest.len() > 0 {
            lemma_scan_split(rest, Seq::empty(), if wrd.len() == 0 {
                out
            } else {
                out.push(FragmentView::Word(wrd))
            });
        } else {
            assert(rs =~= Seq::<Seq<char>>::empty());
        }
        if wrd.len() > 0 {
            assert(out + (seq![wrd] + rs).map_values(|w: Seq<char>| FragmentView::Word(w))
                =~= out.push(FragmentView::Word(wrd)) + rs.map_values(
                |w: Seq<char>| FragmentView::Word(w),
            ));
        }
        assert(out + Seq::<Seq<char>>::empty().map_values(|w: Seq<char>| FragmentView::Word(w))
            =~= out);
        assert(out.push(FragmentView::Word(wrd)) + Seq::<Seq<char>>::empty().map_values(
            |w: Seq<char>| FragmentView::Word(w),
        ) =~= out.push(FragmentView::Word(wrd)));
    } else {
        assert(plain_char(src[0]));
        assert(!ends_word(src[0]));
        if src.len() > 1 {
            assert(src[1] == rest[0]);
            assert(plain_char(rest[0]) || is_blank(rest[0]));
        }
        if seq!['1', '>', '>'].is_prefix_of(src) {
            lemma_prefix_at(seq!['1', '>', '>'], src, 1);
        }
        if seq!['>', '>'].is_prefix_of(src) {
            lemma_prefix_at(seq!['>', '>'], src, 0);
        }
        if seq!['2', '>', '>'].is_prefix_of(src) {
            lemma_prefix_at(seq!['2', '>', '>'], src, 1);
        }
        if seq!['1', '>'].is_prefix_of(src) {
            lemma_prefix_at(seq!['1', '>'], src, 1);
        }
        if seq!['2', '>'].is_prefix_of(src) {
            lemma_prefix_at(seq!['2', '>'], src, 1);
        }
        lemma_scan_split(rest, wrd.push(src[0]), out);
    }
}

proof fn lemma_split_blank_tail(g: Seq<char>, wrd: Seq<char>)
    requires
        forall|i: int| 0 <= i < g.len() ==> is_blank(#[trigger] g[i]),
    ensures
        blank_split(g, wrd) == blank_split(Seq::empty(), wrd),
    decreases g.len(),
{
    if g.len() > 0 {
        assert(is_blank(g[0]));
        assert forall|i: int| 0 <= i < g.drop_first().len() implies is_blank(
            #[trigger] g.drop_first()[i],
        ) by {
            assert(g.drop_first()[i] == g[i + 1]);
        }
        lemma_split_blank_tail(g.drop_first(), Seq::empty());
        assert(seq![wrd] + Seq::<Seq<char>>::empty() =~= seq![wrd]);
    }
}

proof fn lemma_split_drop_tail(s: Seq<char>, g: Seq<char>, wrd: Seq<char>)
    requires
        forall|i: int| 0 <= i < g.len() ==> is_blank(#[trigger] g[i]),
    ensures
        blank_split(s + g, wrd) == blank_split(s, wrd),
    decreases s.len(),
{
    if s.len() == 0 {
        assert(s + g =~= g);
        lemma_split_blank_tail(g, wrd);
    } else {
        assert((s + g)[0] == s[0]);
        assert((s + g).drop_first() =~= s.drop_first() + g);
        if is_blank(s[0]) {
            lemma_split_drop_tail(s.drop_first(), g, Seq::empty());
        } else {
            lemma_split_drop_tail(s.drop_first(), g, wrd.push(s[0]));
        }
    }
}

proof fn lemma_split_drop_head(g: Seq<char>, s: Seq<char>)
    requires
        forall|i: int| 0 <= i < g.len() ==> is_blank(#[trigger] g[i]),
    ensures
        blank_split(g + s, Seq::empty()) == blank_split(s, Seq::empty()),
    decreases g.len(),
{
    if g.len() == 0 {
        assert(g + s =~= s);
    } else {
        assert((g + s)[0] == g[0]);
        assert(is_blank(g[0]));
        assert((g + s).drop_first() =~= g.drop_first() + s);
        assert forall|i: int| 0 <= i < g.drop_first().len() implies is_blank(
            #[trigger] g.drop_first()[i],
        ) by {
            assert(g.drop_first()[i] == g[i + 1]);
        }
        lemma_split_drop_head(g.drop_first(), s);
    }
}

proof fn lemma_trim_start_facts(s: Seq<char>)
    ensures
        trim_start_index(s) <= s.len(),
        forall|i: int| 0 <= i < trim_start_index(s) ==> is_unicode_space(#[trigger] s[i]),
        trim_start_index(s) < s.len() ==> !is_unicode_space(s[trim_start_index(s) as int]),
    decreases s.len(),
{
    if s.len() > 0 && is_unicode_space(s[0]) {
        lemma_trim_start_facts(s.drop_first());
        assert forall|i: int| 0 <= i < trim_start_index(s) implies is_unicode_space(#[trigger] s[i]) by {
            if i > 0 {
                assert(s[i] == s.drop_first()[i - 1]);
            }
        }
    }
}

proof fn lemma_trim_end_facts(s: Seq<char>)
    ensures
        trim_end_index(s) <= s.len(),
        forall|i: int| trim_end_index(s) <= i < s.len() ==> is_unicode_space(#[trigger] s[i]),
        trim_end_index(s) > 0 ==> !is_unicode_space(s[trim_end_index(s) - 1]),
    decreases s.len(),
{
    if s.len() > 0 && is_unicode_space(s.last()) {
        lemma_trim_end_facts(s.drop_last());
        assert forall|i: int| trim_end_index(s) <= i < s.len() implies is_unicode_space(#[trigger] s[i]) by {
            if i < s.len() - 1 {
                assert(s[i] == s.drop_last()[i]);
            }
        }
    }
}

/// A line of plain characters, blanks and tabs is read as the pieces between its
/// blanks and tabs, empty pieces dropped, each a word.
pub proof fn lemma_parse_splits_at_blanks(line: Seq<char>)
    requires
        plain_or_blank(line),
    ensures
        parse_spec(line) == Some(
            blank_split(line, Seq::empty()).map_values(|w: Seq<char>| FragmentView::Word(w)),
        ),
{
    let lo = trim_start_index(line);
    let hi = trim_end_index(line);
    lemma_trim_start_facts(line);
    lemma_trim_end_facts(line);
    assert forall|i: int| 0 <= i < line.len() implies (is_unicode_space(#[trigger] line[i])
        <==> is_blank(line[i])) by {
        assert(plain_char(line[i]) || is_blank(line[i]));
    }
    if lo < hi {
        let mid = line.subrange(lo as int, hi as int);
        let g1 = line.take(lo as int);
        let g2 = line.skip(hi as int);
        assert(line =~= g1 + (mid + g2));
        assert forall|i: int| 0 <= i < g1.len() implies is_blank(#[trigger] g1[i]) by {
            assert(g1[i] == line[i]);
        }
        assert forall|i: int| 0 <= i < g2.len() implies is_blank(#[trigger] g2[i]) by {
            assert(g2[i] == line[i + hi]);
        }
        lemma_split_drop_head(g1, mid + g2);
        lemma_split_drop_tail(mid, g2, Seq::empty());
        assert(plain_or_blank(mid)) by {
            assert forall|i: int| 0 <= i < mid.len() implies plain_char(#[trigger] mid[i])
                || is_blank(mid[i]) by {
                assert(mid[i] == line[i + lo]);
            }
        }
        assert(trim(line) == mid);
        lemma_scan_split(mid, Seq::empty(), Seq::empty());
    } else {
        assert forall|i: int| 0 <= i < line.len() implies is_blank(#[trigger] line[i]) by {
            if !is_unicode_space(line[i]) {
                assert(lo <= i);
                assert(i < hi);
            }
        }
        lemma_split_blank_tail(line, Seq::empty());
        assert(trim(line) =~= Seq::<char>::empty());
    }
    assert(Seq::<FragmentView>::empty() + blank_split(line, Seq::empty()).map_values(
        |w: Seq<char>| FragmentView::Word(w),
    ) =~= blank_split(line, Seq::empty()).map_values(|w: Seq<char>| FragmentView::Word(w)));
}

/// Words of plain characters separated by runs of blanks and tabs, with any white space
/// before and after them, are read back as exactly those words, however the white space
/// runs.
pub proof fn lemma_parse_spaced_words(
    ws: Seq<Seq<char>>,
    gaps: Seq<Seq<char>>,
    lead: Seq<char>,
    trail: Seq<char>,
)
    requires
        gaps.len() + 1 == ws.len(),
        forall|i: int| 0 <= i < gaps.len() ==> #[trigger] blank_run(gaps[i]),
        forall|i: int| 0 <= i < ws.len() ==> #[trigger] ws[i].len() > 0,
        plain_words(ws),
        all_space(lead),
        all_space(trail),
    ensures
        parse_spec(lead + spaced(ws, gaps) + trail) == Some(
            ws.map_values(|w: Seq<char>| FragmentView::Word(w)),
        ),
{
    let s = spaced(ws, gaps);
    lemma_spaced_shape(ws, gaps);
    assert(plain_char(ws[0][0]));
    let last = ws.len() - 1;
    assert(plain_char(ws[last][ws[last].len() - 1]));
    let line = lead + s + trail;
    assert(line =~= lead + (s + trail));
    assert((s + trail)[0] == s[0]);
    lemma_trim_start(lead, s + trail);
    assert((lead + s).last() == s.last());
    lemma_trim_end(lead + s, trail);
    assert(trim(line) =~= s);
    lemma_scan_spaced(ws, gaps, Seq::empty());
    assert(Seq::<FragmentView>::empty() + ws.map_values(|w: Seq<char>| FragmentView::Word(w))
        =~= ws.map_values(|w: Seq<char>| FragmentView::Word(w)));
}

proof fn lemma_scan_dq_plain(
    x: Seq<char>,
    rest: Seq<char>,
    wrd: Seq<char>,
    meta: Option<(i32, bool)>,
    out: Seq<FragmentView>,
)
    requires
        forall|i: int| 0 <= i < x.len() ==> #[trigger] x[i] != '"' && x[i] != '\\',
    ensures
        scan(x + seq!['"'] + rest, true, wrd, meta, out) == scan(rest, false, wrd + x, meta, out),
    decreases x.len(),
{
    let src = x + seq!['"'] + rest;
    assert(src[x.len() as int] == '"');
    assert(has_dq_special(src));
    if x.len() == 0 {
        assert(src[0] == '"');
        assert(src.drop_first() =~= rest);
        assert(wrd + x =~= wrd);
    } else {
        assert(src[0] == x[0]);
        assert(src.drop_first() =~= x.drop_first() + seq!['"'] + rest);
        let tail = x.drop_first();
        assert forall|i: int| 0 <= i < tail.len() implies #[trigger] tail[i] != '"' && tail[i]
            != '\\' by {
            assert(tail[i] == x[i + 1]);
        }
        lemma_scan_dq_plain(tail, rest, wrd.push(x[0]), meta, out);
        assert(wrd.push(x[0]) + tail =~= wrd + x);
    }
}

/// A line whose first character is neither `1`, `2` nor `>` starts with no redirection.
proof fn lemma_no_redirect_at(src: Seq<char>)
    requires
        src.len() > 0,
        src[0] != '1' && src[0] != '2' && src[0] != '>',
    ensures
        !seq!['1', '>', '>'].is_prefix_of(src),
        !seq!['>', '>'].is_prefix_of(src),
        !seq!['2', '>', '>'].is_prefix_of(src),
        !seq!['1', '>'].is_prefix_of(src),
        !seq!['2', '>'].is_prefix_of(src),
{
    assert(!seq!['1', '>', '>'].is_prefix_of(src)) by {
        if seq!['1', '>', '>'].is_prefix_of(src) {
            assert(src.subrange(0, 3)[0] == src[0]);
        }
    }
    assert(!seq!['>', '>'].is_prefix_of(src)) by {
        if seq!['>', '>'].is_prefix_of(src) {
            assert(src.subrange(0, 2)[0] == src[0]);
        }
    }
    assert(!seq!['2', '>', '>'].is_prefix_of(src)) by {
        if seq!['2', '>', '>'].is_prefix_of(src) {
            assert(src.subrange(0, 3)[0] == src[0]);
        }
    }
    assert(!seq!['1', '>'].is_prefix_of(src)) by {
        if seq!['1', '>'].is_prefix_of(src) {
            assert(src.subrange(0, 2)[0] == src[0]);
        }
    }
    assert(!seq!['2', '>'].is_prefix_of(src)) by {
        if seq!['2', '>'].is_prefix_of(src) {
            assert(src.subrange(0, 2)[0] == src[0]);
        }
    }
}

/// Outside quotes, text in single quotes with no single quote inside is added to the
/// word being built verbatim, whatever comes after it: backslashes, double quotes and
/// blanks have no meaning there, and the quotes themselves are dropped.
pub proof fn lemma_scan_single_quoted(
    x: Seq<char>,
    rest: Seq<char>,
    wrd: Seq<char>,
    meta: Option<(i32, bool)>,
    out: Seq<FragmentView>,
)
    requires
        forall|i: int| 0 <= i < x.len() ==> #[trigger] x[i] != '\'',
    ensures
        scan(seq!['\''] + x + seq!['\''] + rest, false, wrd, meta, out) == scan(
            rest,
            false,
            wrd + x,
            meta,
            out,
        ),
{
    let src = seq!['\''] + x + seq!['\''] + rest;
    assert(src[0] == '\'');
    lemma_no_redirect_at(src);
    let sub = src.drop_first();
    assert(sub =~= x + (seq!['\''] + rest));
    assert(sub[x.len() as int] == '\'');
    assert forall|j: int| 0 <= j < x.len() implies sub[j] != '\'' by {
        assert(sub[j] == x[j]);
    }
    lemma_first_index_is(sub, '\'', x.len() as int);
    assert(sub.take(x.len() as int) =~= x);
    assert(sub.skip(x.len() as int + 1) =~= rest);
}

/// Outside quotes, a backslash adds the character after it to the word, whatever that
/// character is, and is itself dropped.
pub proof fn lemma_scan_escaped(
    c: char,
    rest: Seq<char>,
    wrd: Seq<char>,
    meta: Option<(i32, bool)>,
    out: Seq<FragmentView>,
)
    ensures
        scan(seq!['\\', c] + rest, false, wrd, meta, out) == scan(rest, false, wrd.push(c), meta, out),
{
    let src = seq!['\\', c] + rest;
    assert(src[0] == '\\');
    lemma_no_redirect_at(src);
    assert(src.drop_first()[0] == c);
    assert(src.drop_first().drop_first() =~= rest);
}

/// Inside double quotes, a backslash escapes only `"`, `\`, `$`, `` ` `` and newline,
/// which it adds to the word alone; before any other character the backslash is kept.
pub proof fn lemma_scan_dq_escaped(
    c: char,
    rest: Seq<char>,
    wrd: Seq<char>,
    meta: Option<(i32, bool)>,
    out: Seq<FragmentView>,
)
    ensures
        scan(seq!['\\', c] + rest, true, wrd, meta, out) == scan(
            rest,
            true,
            if dq_escapable(c) {
                wrd.push(c)
            } else {
                wrd.push('\\').push(c)
            },
            meta,
            out,
        ),
{
    let src = seq!['\\', c] + rest;
    assert(src[0] == '\\');
    assert(has_dq_special(src));
    assert(src.drop_first()[0] == c);
    assert(src.drop_first().drop_first() =~= rest);
}

/// Outside quotes, text in double quotes with no double quote or backslash inside is
/// added to the word being built verbatim, whatever comes after it.
pub proof fn lemma_scan_double_quoted(
    x: Seq<char>,
    rest: Seq<char>,
    wrd: Seq<char>,
    meta: Option<(i32, bool)>,
    out: Seq<FragmentView>,
)
    requires
        forall|i: int| 0 <= i < x.len() ==> #[trigger] x[i] != '"' && x[i] != '\\',
    ensures
        scan(seq!['"'] + x + seq!['"'] + rest, false, wrd, meta, out) == scan(
            rest,
            false,
            wrd + x,
            meta,
            out,
        ),
{
    let src = seq!['"'] + x + seq!['"'] + rest;
    assert(src[0] == '"');
    lemma_no_redirect_at(src);
    assert(src.drop_first() =~= x + seq!['"'] + rest);
    lemma_scan_dq_plain(x, rest, wrd, meta, out);
}

/// Text in single quotes, with no single quote inside, is one word taken verbatim:
/// blanks, double quotes and backslashes included.
pub proof fn lemma_parse_single_quoted(x: Seq<char>)
    requires
        x.len() > 0,
        forall|i: int| 0 <= i < x.len() ==> #[trigger] x[i] != '\'',
    ensures
        parse_spec(seq!['\''] + x + seq!['\'']) == Some(seq![FragmentView::Word(x)]),
{
    let line = seq!['\''] + x + seq!['\''];
    assert(line[0] == '\'');
    assert(line.last() == '\'');
    assert(trim_start_index(line) == 0);
    assert(trim_end_index(line) == line.len());
    assert(trim(line) =~= line);
    assert(line =~= seq!['\''] + x + seq!['\''] + Seq::<char>::empty());
    lemma_scan_single_quoted(x, Seq::empty(), Seq::empty(), None, Seq::empty());
    assert(Seq::<char>::empty() + x =~= x);
    assert(Seq::<FragmentView>::empty().push(FragmentView::Word(x)) =~= seq![FragmentView::Word(x)]);
}

/// Text in double quotes, with no double quote or backslash inside, is one word
/// taken verbatim: blanks and single quotes included.
pub proof fn lemma_parse_double_quoted(x: Seq<char>)
    requires
        x.len() > 0,
        forall|i: int| 0 <= i < x.len() ==> #[trigger] x[i] != '"' && x[i] != '\\',
    ensures
        parse_spec(seq!['"'] + x + seq!['"']) == Some(seq![FragmentView::Word(x)]),
{
    let line = seq!['"'] + x + seq!['"'];
    assert(line[0] == '"');
    assert(line.last() == '"');
    assert(trim_start_index(line) == 0);
    assert(trim_end_index(line) == line.len());
    assert(trim(line) =~= line);
    assert(line =~= seq!['"'] + x + seq!['"'] + Seq::<char>::empty());
    lemma_scan_double_quoted(x, Seq::empty(), Seq::empty(), None, Seq::empty());
    assert(Seq::<char>::empty() + x =~= x);
    assert(Seq::<FragmentView>::empty().push(FragmentView::Word(x)) =~= seq![FragmentView::Word(x)]);
}

/// Single-quoted texts written next to each other make one word: their contents
/// joined, an empty pair of quotes adding nothing.
pub proof fn lemma_parse_quotes_concatenate(x: Seq<char>, y: Seq<char>)
    requires
        x.len() + y.len() > 0,
        forall|i: int| 0 <= i < x.len() ==> #[trigger] x[i] != '\'',
        forall|i: int| 0 <= i < y.len() ==> #[trigger] y[i] != '\'',
    ensures
        parse_spec(seq!['\''] + x + seq!['\''] + seq!['\''] + y + seq!['\'']) == Some(
            seq![FragmentView::Word(x + y)],
        ),
{
    let second = seq!['\''] + y + seq!['\''];
    let line = seq!['\''] + x + seq!['\''] + second;
    assert(line =~= seq!['\''] + x + seq!['\''] + seq!['\''] + y + seq!['\'']);
    assert(line[0] == '\'');
    assert(line.last() == '\'');
    assert(trim_start_index(line) == 0);
    assert(trim_end_index(line) == line.len());
    assert(trim(line) =~= line);
    lemma_scan_single_quoted(x, second, Seq::empty(), None, Seq::empty());
    assert(second =~= seq!['\''] + y + seq!['\''] + Seq::<char>::empty());
    lemma_scan_single_quoted(y, Seq::empty(), Seq::empty() + x, None, Seq::empty());
    assert(Seq::<char>::empty() + x + y =~= x + y);
    assert(Seq::<FragmentView>::empty().push(FragmentView::Word(x + y)) =~= seq![
        FragmentView::Word(x + y),
    ]);
}

/// The operator that redirects descriptor `fd`: `>`, or `>>` to append (when
/// `truncate` is off), with the descriptor's digit in front when `explicit`.
pub open spec fn redirect_op(fd: i32, truncate: bool, explicit: bool) -> Seq<char> {
    let digit = if fd == 1 {
        seq!['1']
    } else {
        seq!['2']
    };
    let arrows = if truncate {
        seq!['>']
    } else {
        seq!['>', '>']
    };
    if explicit {
        digit + arrows
    } else {
        arrows
    }
}

proof fn lemma_prefix_at(p: Seq<char>, src: Seq<char>, k: int)
    requires
        p.is_prefix_of(src),
        0 <= k < p.len(),
    ensures
        src[k] == p[k],
{
    assert(src.subrange(0, p.len() as int)[k] == src[k]);
}

/// Reading a redirection operator in front of `tail`, where the operator ends: the word
/// being built is untouched and the next word becomes the target.
#[verifier::rlimit(40)]
proof fn lemma_scan_op(
    fd: i32,
    truncate: bool,
    explicit: bool,
    tail: Seq<char>,
    out: Seq<FragmentView>,
)
    requires
        fd == 1 || fd == 2,
        explicit || fd == 1,
        tail.len() > 0,
        tail[0] == ' ',
    ensures
        scan(redirect_op(fd, truncate, explicit) + tail, false, Seq::empty(), None, out) == scan(
            tail,
            false,
            Seq::empty(),
            Some((fd, truncate)),
            out,
        ),
{
    let op = redirect_op(fd, truncate, explicit);
    let src = op + tail;
    assert(src.len() > 0);
    if explicit && fd == 1 && !truncate {
        assert(op =~= seq!['1', '>', '>']);
        assert(src.subrange(0, 3) =~= seq!['1', '>', '>']);
        assert(src.skip(3) =~= tail);
    } else if !explicit && !truncate {
        assert(op =~= seq!['>', '>']);
        assert(src[0] == '>');
        assert(src.subrange(0, 2) =~= seq!['>', '>']);
        assert(src.skip(2) =~= tail);
        if seq!['1', '>', '>'].is_prefix_of(src) {
            lemma_prefix_at(seq!['1', '>', '>'], src, 0);
        }
    } else if explicit && fd == 2 && !truncate {
        assert(op =~= seq!['2', '>', '>']);
        assert(src[0] == '2');
        assert(src.subrange(0, 3) =~= seq!['2', '>', '>']);
        assert(src.skip(3) =~= tail);
        if seq!['1', '>', '>'].is_prefix_of(src) {
            lemma_prefix_at(seq!['1', '>', '>'], src, 0);
        }
        if seq!['>', '>'].is_prefix_of(src) {
            lemma_prefix_at(seq!['>', '>'], src, 0);
        }
    } else if explicit && fd == 1 {
        assert(op =~= seq!['1', '>']);
        assert(src[2] == ' ');
        assert(src[0] == '1');
        assert(src.subrange(0, 2) =~= seq!['1', '>']);
        assert(src.skip(2) =~= tail);
        if seq!['1', '>', '>'].is_prefix_of(src) {
            lemma_prefix_at(seq!['1', '>', '>'], src, 2);
        }
        if seq!['>', '>'].is_prefix_of(src) {
            lemma_prefix_at(seq!['>', '>'], src, 0);
        }
        if seq!['2', '>', '>'].is_prefix_of(src) {
            lemma_prefix_at(seq!['2', '>', '>'], src, 0);
        }
    } else if !explicit {
        assert(op =~= seq!['>']);
        assert(src[0] == '>');
        assert(src[1] == ' ');
        assert(src.skip(1) =~= tail);
        if seq!['1', '>', '>'].is_prefix_of(src) {
            lemma_prefix_at(seq!['1', '>', '>'], src, 0);
        }
        if seq!['>', '>'].is_prefix_of(src) {
            lemma_prefix_at(seq!['>', '>'], src, 1);
        }
        if seq!['2', '>', '>'].is_prefix_of(src) {
            lemma_prefix_at(seq!['2', '>', '>'], src, 0);
        }
        if seq!['1', '>'].is_prefix_of(src) {
            lemma_prefix_at(seq!['1', '>'], src, 0);
        }
    } else {
        assert(op =~= seq!['2', '>']);
        assert(src[0] == '2');
        assert(src[2] == ' ');
        assert(src.subrange(0, 2) =~= seq!['2', '>']);
        assert(src.skip(2) =~= tail);
        if seq!['1', '>', '>'].is_prefix_of(src) {
            lemma_prefix_at(seq!['1', '>', '>'], src, 0);
        }
        if seq!['>', '>'].is_prefix_of(src) {
            lemma_prefix_at(seq!['>', '>'], src, 0);
        }
        if seq!['2', '>', '>'].is_prefix_of(src) {
            lemma_prefix_at(seq!['2', '>', '>'], src, 2);
        }
        if seq!['1', '>'].is_prefix_of(src) {
            lemma_prefix_at(seq!['1', '>'], src, 0);
        }
    }
}

/// A blank after a finished word closes it, with the pending redirection.
proof fn lemma_scan_blank_closes(rest: Seq<char>, wrd: Seq<char>, meta: Option<(i32, bool)>, out: Seq<FragmentView>)
    requires
        wrd.len() > 0,
        rest.len() > 0,
    ensures
        scan(seq![' '] + rest, false, wrd, meta, out) == scan(
            rest,
            false,
            Seq::empty(),
            None,
            out.push(fragment_of(meta, wrd)),
        ),
{
    let src = seq![' '] + rest;
    assert(src[0] == ' ');
    assert(src.drop_first() =~= rest);
}

/// A blank before any word is skipped.
proof fn lemma_scan_blank_skipped(rest: Seq<char>, meta: Option<(i32, bool)>, out: Seq<FragmentView>)
    requires
        rest.len() > 0,
    ensures
        scan(seq![' '] + rest, false, Seq::empty(), meta, out) == scan(rest, false, Seq::empty(), meta, out),
{
    let src = seq![' '] + rest;
    assert(src[0] == ' ');
    assert(src.drop_first() =~= rest);
}

/// A word, a redirection operator and its target, separated by blanks, read back as
/// the word and a redirection of that descriptor to the target: `>` and `1>` truncate
/// standard output's file, `>>` and `1>>` append to it, `2>` and `2>>` do the same for
/// standard error.
#[verifier::rlimit(40)]
pub proof fn lemma_parse_redirect(
    w: Seq<char>,
    fd: i32,
    truncate: bool,
    explicit: bool,
    f: Seq<char>,
)
    requires
        fd == 1 || fd == 2,
        explicit || fd == 1,
        w.len() > 0,
        f.len() > 0,
        forall|i: int| 0 <= i < w.len() ==> #[trigger] plain_char(w[i]),
        forall|i: int| 0 <= i < f.len() ==> #[trigger] plain_char(f[i]),
    ensures
        parse_spec(w + seq![' '] + redirect_op(fd, truncate, explicit) + seq![' '] + f) == Some(
            seq![FragmentView::Word(w), FragmentView::RedirectFd { fd, path: f, truncate }],
        ),
{
    let op = redirect_op(fd, truncate, explicit);
    let target = seq![' '] + f;
    let after = op + target;
    let line = w + (seq![' '] + after);
    assert(line =~= w + seq![' '] + op + seq![' '] + f);
    assert(line[0] == w[0]);
    assert(plain_char(w[0]));
    assert(line.last() == f.last());
    assert(plain_char(f[f.len() - 1]));
    assert(trim_start_index(line) == 0);
    assert(trim_end_index(line) == line.len());
    assert(trim(line) =~= line);
    let e = Seq::<char>::empty();
    let none = Seq::<FragmentView>::empty();
    let out2 = none.push(FragmentView::Word(w));
    // The word.
    lemma_scan_plain(w, seq![' '] + after, e, None, none);
    assert(e + w =~= w);
    // The blank after it.
    assert(after.len() > 0);
    lemma_scan_blank_closes(after, w, None, none);
    // The operator.
    assert(target[0] == ' ');
    lemma_scan_op(fd, truncate, explicit, target, out2);
    // The blank after it, and the target.
    lemma_scan_blank_skipped(f, Some((fd, truncate)), out2);
    assert(f =~= f + e);
    lemma_scan_plain(f, e, e, Some((fd, truncate)), out2);
    assert(e + f =~= f);
    assert(out2.push(FragmentView::RedirectFd { fd, path: f, truncate }) =~= seq![
        FragmentView::Word(w),
        FragmentView::RedirectFd { fd, path: f, truncate },
    ]);
}

/// Splits `line` into words and redirections; see `try_parse_line`.
pub fn parse_line(line: &str) -> (r: Vec<Fragment>)
    requires
        parse_spec(line@) is Some,
    ensures
        parse_spec(line@) == Some(fragments_view(r@)),
{
    match try_parse_line(line) {
        Some(v) => v,
        None => Vec::new(),
    }
}

} // verus!
