//! The line being edited at the prompt, with its cursor.
use vstd::prelude::*;

use crate::text::{push_char, string_of};

verus! {

/// Characters that separate words when they are not quoted.
pub open spec fn is_meta(c: char) -> bool {
    c == ' ' || c == '\t' || c == '\n' || c == '(' || c == ')' || c == '<' || c == '>' || c == '|'
        || c == '&' || c == ';'
}

/// Whether `c` separates words when it is not quoted.
pub fn is_meta_char(c: char) -> (r: bool)
    ensures
        r == is_meta(c),
{
    c == ' ' || c == '\t' || c == '\n' || c == '(' || c == ')' || c == '<' || c == '>' || c == '|'
        || c == '&' || c == ';'
}

/// ASCII white space, as `u8::is_ascii_whitespace` and `str::trim_ascii_start` see it.
pub open spec fn is_ascii_space(c: char) -> bool {
    c == ' ' || c == '\t' || c == '\n' || c == '\x0C' || c == '\r'
}

/// Where the word under construction starts in `t`, scanning from `pos` with the
/// current word starting at `start`: unquoted separators start a new word, quoted
/// and escaped text stays in it. When a quote is left open, or a backslash ends `t`,
/// the scan stops and the word starts where it last started.
pub open spec fn word_start(t: Seq<char>, pos: nat, start: nat, in_dq: bool) -> nat
    decreases t.len() - pos,
{
    if pos >= t.len() {
        start
    } else if in_dq {
        word_start(t, pos + 1, start, t[pos as int] != '"')
    } else if is_meta(t[pos as int]) {
        word_start(t, pos + 1, pos + 1, false)
    } else if t[pos as int] == '\'' {
        match crate::parse::first_index(t.skip(pos + 1int), '\'') {
            Some(i) => {
                proof {
                    crate::parse::lemma_first_index(t.skip(pos + 1int), '\'');
                }
                word_start(t, pos + 1 + i + 1, start, false)
            },
            None => start,
        }
    } else if t[pos as int] == '"' {
        word_start(t, pos + 1, start, true)
    } else if t[pos as int] == '\\' {
        if pos + 1 < t.len() {
            word_start(t, pos + 2, start, false)
        } else {
            start
        }
    } else {
        word_start(t, pos + 1, start, false)
    }
}

/// Whether scanning `t` from `pos` meets no unquoted separator: quoted and escaped
/// text never separates, and an open quote or a trailing backslash ends the scan.
pub open spec fn no_separator(t: Seq<char>, pos: nat, in_dq: bool) -> bool
    decreases t.len() - pos,
{
    if pos >= t.len() {
        true
    } else if in_dq {
        no_separator(t, pos + 1, t[pos as int] != '"')
    } else if is_meta(t[pos as int]) {
        false
    } else if t[pos as int] == '\'' {
        match crate::parse::first_index(t.skip(pos + 1int), '\'') {
            Some(i) => {
                proof {
                    crate::parse::lemma_first_index(t.skip(pos + 1int), '\'');
                }
                no_separator(t, pos + 1 + i + 1, false)
            },
            None => true,
        }
    } else if t[pos as int] == '"' {
        no_separator(t, pos + 1, true)
    } else if t[pos as int] == '\\' {
        if pos + 1 < t.len() {
            no_separator(t, pos + 2, false)
        } else {
            true
        }
    } else {
        no_separator(t, pos + 1, false)
    }
}

proof fn lemma_word_start_bounds(t: Seq<char>, pos: nat, start: nat, in_dq: bool)
    requires
        start <= pos,
        start < pos ==> !is_meta(t[start as int]),
        start > 0 ==> start <= t.len() && is_meta(t[start - 1]),
        in_dq ==> start < pos,
    ensures
        word_start(t, pos, start, in_dq) <= t.len() || word_start(t, pos, start, in_dq) == start,
        word_start(t, pos, start, in_dq) > 0 ==> is_meta(t[word_start(t, pos, start, in_dq) - 1]),
        word_start(t, pos, start, in_dq) < t.len() ==> !is_meta(t[word_start(t, pos, start, in_dq) as int]),
    decreases t.len() - pos,
{
    if pos >= t.len() {
    } else if in_dq {
        lemma_word_start_bounds(t, pos + 1, start, t[pos as int] != '"');
    } else if is_meta(t[pos as int]) {
        lemma_word_start_bounds(t, pos + 1, pos + 1, false);
    } else if t[pos as int] == '\'' {
        crate::parse::lemma_first_index(t.skip(pos + 1int), '\'');
        match crate::parse::first_index(t.skip(pos + 1int), '\'') {
            Some(i) => {
                lemma_word_start_bounds(t, pos + 1 + i + 1, start, false);
            },
            None => {},
        }
    } else if t[pos as int] == '"' {
        lemma_word_start_bounds(t, pos + 1, start, true);
    } else if t[pos as int] == '\\' {
        if pos + 1 < t.len() {
            lemma_word_start_bounds(t, pos + 2, start, false);
        }
    } else {
        lemma_word_start_bounds(t, pos + 1, start, false);
    }
}

/// The word completion works on starts at the beginning of the text or right after a
/// separator, and does not begin with one.
pub proof fn lemma_word_start_after_separator(t: Seq<char>)
    ensures
        word_start(t, 0, 0, false) <= t.len(),
        word_start(t, 0, 0, false) > 0 ==> is_meta(t[word_start(t, 0, 0, false) - 1]),
        word_start(t, 0, 0, false) < t.len() ==> !is_meta(t[word_start(t, 0, 0, false) as int]),
{
    lemma_word_start_bounds(t, 0, 0, false);
}

proof fn lemma_word_start_in_word(lead: Seq<char>, s: Seq<char>, p: nat, start: nat, in_dq: bool)
    requires
        p <= s.len(),
        no_separator(s, p, in_dq),
    ensures
        word_start(lead + s, lead.len() + p, start, in_dq) == start,
    decreases s.len() - p,
{
    let t = lead + s;
    let q = lead.len() + p;
    if p < s.len() {
        assert(t[q as int] == s[p as int]);
        if in_dq {
            lemma_word_start_in_word(lead, s, p + 1, start, s[p as int] != '"');
        } else if s[p as int] == '\'' {
            assert(t.skip(q + 1int) =~= s.skip(p + 1int));
            crate::parse::lemma_first_index(s.skip(p + 1int), '\'');
            match crate::parse::first_index(s.skip(p + 1int), '\'') {
                Some(i) => {
                    lemma_word_start_in_word(lead, s, p + 1 + i + 1, start, false);
                },
                None => {},
            }
        } else if s[p as int] == '"' {
            lemma_word_start_in_word(lead, s, p + 1, start, true);
        } else if s[p as int] == '\\' {
            if p + 1 < s.len() {
                lemma_word_start_in_word(lead, s, p + 2, start, false);
            }
        } else {
            lemma_word_start_in_word(lead, s, p + 1, start, false);
        }
    }
}

proof fn lemma_word_start_skips_lead(t: Seq<char>, pos: nat, n: nat)
    requires
        pos <= n <= t.len(),
        forall|i: int| pos <= i < n ==> #[trigger] is_meta(t[i]),
        pos < n,
    ensures
        word_start(t, pos, pos, false) == word_start(t, n, n, false),
    decreases n - pos,
{
    if pos + 1 < n {
        lemma_word_start_skips_lead(t, pos + 1, n);
    }
}

/// In the first word, where only blanks, tabs and newlines come before it and no
/// unquoted separator follows, the word completion works on is everything after that
/// white space.
pub proof fn lemma_first_word_is_prefix_word(lead: Seq<char>, s: Seq<char>)
    requires
        forall|i: int| 0 <= i < lead.len() ==> (#[trigger] lead[i] == ' ' || lead[i] == '\t'
            || lead[i] == '\n'),
        no_separator(s, 0, false),
    ensures
        word_start(lead + s, 0, 0, false) == lead.len(),
        (lead + s).subrange(word_start(lead + s, 0, 0, false) as int, (lead + s).len() as int) == s,
{
    let t = lead + s;
    if lead.len() > 0 {
        assert forall|i: int| 0 <= i < lead.len() implies #[trigger] is_meta(t[i]) by {
            assert(t[i] == lead[i]);
        }
        lemma_word_start_skips_lead(t, 0, lead.len());
    }
    lemma_word_start_in_word(lead, s, 0, lead.len(), false);
    assert(t.subrange(lead.len() as int, t.len() as int) =~= s);
}

/// Index of the first character of `t` that is not ASCII white space, or `t.len()`.
pub open spec fn ascii_trim_start_index(t: Seq<char>) -> nat
    decreases t.len(),
{
    if t.len() > 0 && is_ascii_space(t[0]) {
        1 + ascii_trim_start_index(t.drop_first())
    } else {
        0
    }
}

/// Whether the cursor stands in the command word of `t`, the text before the cursor:
/// after leading white space, no unquoted separator occurs, and the text does not end
/// in a separator.
pub open spec fn in_first_word(t: Seq<char>) -> bool {
    let s = t.skip(ascii_trim_start_index(t) as int);
    if s.len() > 0 && is_meta(s.last()) {
        false
    } else {
        no_separator(s, 0, false)
    }
}

pub struct Buffer {
    buf: Vec<char>,
    idx: usize,
    insert_mode: bool,
}

impl Buffer {
    /// The text of the line.
    pub closed spec fn text(&self) -> Seq<char> {
        self.buf@
    }

    /// The cursor, counted in characters from the start of the line.
    pub closed spec fn cursor(&self) -> nat {
        self.idx as nat
    }

    /// Whether typing overwrites the character under the cursor.
    pub closed spec fn overwrite(&self) -> bool {
        self.insert_mode
    }

    /// The cursor lies within the text.
    pub open spec fn wf(&self) -> bool {
        self.cursor() <= self.text().len()
    }

    /// An empty line.
    pub fn new() -> (b: Buffer)
        ensures
            b.wf(),
            b.text() == Seq::<char>::empty(),
            b.cursor() == 0,
            !b.overwrite(),
    {
        Buffer { buf: Vec::new(), idx: 0, insert_mode: false }
    }

    /// Switches between inserting and overwriting.
    pub fn toggle_insert_mode(&mut self)
        ensures
            final(self).text() == old(self).text(),
            final(self).cursor() == old(self).cursor(),
            final(self).overwrite() == !old(self).overwrite(),
    {
        self.insert_mode = !self.insert_mode;
    }

    /// Types `ch` at the cursor and moves past it. In overwrite mode it replaces the
    /// character under the cursor, if there is one. Returns whether nothing was
    /// replaced.
    pub fn insert(&mut self, ch: char) -> (r: bool)
        requires
            old(self).wf(),
        ensures
            final(self).wf(),
            final(self).overwrite() == old(self).overwrite(),
            final(self).cursor() == old(self).cursor() + 1,
            r == !(old(self).overwrite() && old(self).cursor() < old(self).text().len()),
            final(self).text() == if r {
                old(self).text().insert(old(self).cursor() as int, ch)
            } else {
                old(self).text().update(old(self).cursor() as int, ch)
            },
    {
        let mut replaced = false;
        if self.insert_mode {
            replaced = self.delete();
        }
        self.buf.insert(self.idx, ch);
        let n = self.buf.len();
        self.idx = self.idx + 1;
        proof {
            if replaced {
                assert(self.text() =~= old(self).text().update(old(self).cursor() as int, ch));
            }
        }
        !replaced
    }

    /// Removes the character under the cursor; `false` when the cursor is at the end.
    pub fn delete(&mut self) -> (r: bool)
        requires
            old(self).wf(),
        ensures
            final(self).wf(),
            final(self).overwrite() == old(self).overwrite(),
            final(self).cursor() == old(self).cursor(),
            r == (old(self).cursor() < old(self).text().len()),
            final(self).text() == if r {
                old(self).text().remove(old(self).cursor() as int)
            } else {
                old(self).text()
            },
    {
        let doit = !self.is_cursor_at_end();
        if doit {
            self.buf.remove(self.idx);
        }
        doit
    }

    pub fn is_cursor_at_end(&self) -> (r: bool)
        requires
            self.wf(),
        ensures
            r == (self.cursor() == self.text().len()),
    {
        self.idx == self.len()
    }

    pub fn is_cursor_at_start(&self) -> (r: bool)
        ensures
            r == (self.cursor() == 0),
    {
        self.idx == 0
    }

    /// Moves the cursor to the start; `false` when it is there already.
    pub fn cursor_to_start(&mut self) -> (r: bool)
        requires
            old(self).wf(),
        ensures
            final(self).wf(),
            final(self).text() == old(self).text(),
            final(self).overwrite() == old(self).overwrite(),
            final(self).cursor() == 0,
            r == (old(self).cursor() != 0),
    {
        let doit = !self.is_cursor_at_start();
        if doit {
            self.idx = 0;
        }
        doit
    }

    /// Moves the cursor to the end; `false` when it is there already.
    pub fn cursor_to_end(&mut self) -> (r: bool)
        requires
            old(self).wf(),
        ensures
            final(self).wf(),
            final(self).text() == old(self).text(),
            final(self).overwrite() == old(self).overwrite(),
            final(self).cursor() == old(self).text().len(),
            r == (old(self).cursor() != old(self).text().len()),
    {
        let doit = !self.is_cursor_at_end();
        if doit {
            self.idx = self.len();
        }
        doit
    }

    /// Moves the cursor one character right; `false` at the end.
    pub fn cursor_incr(&mut self) -> (r: bool)
        requires
            old(self).wf(),
        ensures
            final(self).wf(),
            final(self).text() == old(self).text(),
            final(self).overwrite() == old(self).overwrite(),
            r == (old(self).cursor() < old(self).text().len()),
            final(self).cursor() == if r {
                old(self).cursor() + 1int
            } else {
                old(self).cursor() as int
            },
    {
        let doit = !self.is_cursor_at_end();
        let n = self.buf.len();
        if doit {
            self.idx = self.idx + 1;
        }
        doit
    }

    /// Moves the cursor one character left; `false` at the start.
    pub fn cursor_decr(&mut self) -> (r: bool)
        requires
            old(self).wf(),
        ensures
            final(self).wf(),
            final(self).text() == old(self).text(),
            final(self).overwrite() == old(self).overwrite(),
            r == (old(self).cursor() > 0),
            final(self).cursor() == if r {
                old(self).cursor() - 1
            } else {
                old(self).cursor() as int
            },
    {
        let doit = !self.is_cursor_at_start();
        if doit {
            self.idx = self.idx - 1;
        }
        doit
    }

    /// Inserts `s` at the cursor and moves past it.
    pub fn insert_str(&mut self, s: &str)
        requires
            old(self).wf(),
        ensures
            final(self).wf(),
            final(self).overwrite() == old(self).overwrite(),
            final(self).text() == old(self).text().take(old(self).cursor() as int) + s@
                + old(self).text().skip(old(self).cursor() as int),
            final(self).cursor() == old(self).cursor() + s@.len(),
    {
        let cs = crate::text::chars_of(s);
        let mut i: usize = 0;
        let ghost t0 = self.buf@;
        let ghost c0 = self.idx as int;
        while i < cs.len()
            invariant
                i <= cs@.len(),
                cs@ == s@,
                self.idx == c0 + i,
                self.overwrite() == old(self).overwrite(),
                self.buf@ == t0.take(c0) + cs@.take(i as int) + t0.skip(c0),
                t0 == old(self).text(),
                c0 == old(self).cursor(),
                c0 <= t0.len(),
            decreases cs@.len() - i,
        {
            self.buf.insert(self.idx, cs[i]);
            let n = self.buf.len();
            proof {
                assert(self.idx < n);
            }
            self.idx = self.idx + 1;
            proof {
                assert(self.buf@ =~= t0.take(c0) + cs@.take(i + 1) + t0.skip(c0));
            }
            i = i + 1;
        }
        proof {
            assert(cs@.take(i as int) =~= s@);
        }
    }

    /// The current word up to the cursor: the text between the last unquoted
    /// separator before the cursor and the cursor.
    pub fn get_cursor_prefix_word(&self) -> (r: String)
        requires
            self.wf(),
        ensures
            r@ == self.text().subrange(
                word_start(self.text().take(self.cursor() as int), 0, 0, false) as int,
                self.cursor() as int,
            ),
    {
        let ghost t = self.text().take(self.idx as int);
        let end = self.idx;
        let mut pos: usize = 0;
        let mut start: usize = 0;
        let mut in_dq = false;
        while pos < end
            invariant
                end == self.cursor(),
                end <= self.text().len(),
                t == self.text().take(end as int),
                start <= pos <= end,
                word_start(t, pos as nat, start as nat, in_dq) == word_start(t, 0, 0, false),
            decreases end - pos,
        {
            let ch = self.buf[pos];
            if in_dq {
                in_dq = ch != '"';
                pos = pos + 1;
            } else if is_meta_char(ch) {
                pos = pos + 1;
                start = pos;
            } else if ch == '\'' {
                let j = self.find_quote(pos + 1, end);
                proof {
                    self.lemma_find_quote_index(t, (pos + 1) as usize, j);
                }
                if j == end {
                    return string_of(&self.buf, start, end);
                }
                pos = j + 1;
            } else if ch == '"' {
                in_dq = true;
                pos = pos + 1;
            } else if ch == '\\' {
                if pos + 1 < end {
                    pos = pos + 2;
                } else {
                    return string_of(&self.buf, start, end);
                }
            } else {
                pos = pos + 1;
            }
        }
        string_of(&self.buf, start, end)
    }

    /// Index of the first single quote in `buf[from..end]`, or `end`.
    fn find_quote(&self, from: usize, end: usize) -> (j: usize)
        requires
            from <= end <= self.text().len(),
        ensures
            from <= j <= end,
            j < end ==> self.text()[j as int] == '\'',
            forall|k: int| from <= k < j ==> self.text()[k] != '\'',
    {
        let mut j = from;
        while j < end && self.buf[j] != '\''
            invariant
                from <= j <= end <= self.buf@.len(),
                forall|k: int| from <= k < j ==> self.buf@[k] != '\'',
            decreases end - j,
        {
            j = j + 1;
        }
        j
    }

    proof fn lemma_find_quote_index(&self, t: Seq<char>, from: usize, j: usize)
        requires
            1 <= from <= j <= t.len(),
            t.len() <= self.text().len(),
            t == self.text().take(t.len() as int),
            j < t.len() ==> self.text()[j as int] == '\'',
            forall|k: int| from <= k < j ==> self.text()[k] != '\'',
        ensures
            crate::parse::first_index(t.skip(from as int), '\'') == if j < t.len() {
                Some((j - from) as nat)
            } else {
                None
            },
    {
        let u = t.skip(from as int);
        assert forall|k: int| 0 <= k < j - from implies u[k] != '\'' by {
            assert(u[k] == t[from + k]);
        }
        if j < t.len() {
            assert(u[j - from] == t[j as int]);
        }
        crate::parse::lemma_first_index_is(u, '\'', j - from);
    }

    /// Whether the cursor stands in the command word of the line.
    pub fn is_cursor_in_first_word(&self) -> (r: bool)
        requires
            self.wf(),
        ensures
            r == in_first_word(self.text().take(self.cursor() as int)),
    {
        let ghost t = self.text().take(self.idx as int);
        let end = self.idx;
        let mut lo: usize = 0;
        proof {
            assert(t.skip(0) =~= t);
        }
        while lo < end && (self.buf[lo] == ' ' || self.buf[lo] == '\t' || self.buf[lo] == '\n'
            || self.buf[lo] == '\x0C' || self.buf[lo] == '\r')
            invariant
                end == self.cursor(),
                end <= self.text().len(),
                t == self.text().take(end as int),
                lo <= end,
                ascii_trim_start_index(t) == lo + ascii_trim_start_index(t.skip(lo as int)),
            decreases end - lo,
        {
            proof {
                assert(t.skip(lo as int).drop_first() =~= t.skip(lo + 1));
            }
            lo = lo + 1;
        }
        proof {
            if lo == end {
                assert(t.skip(lo as int).len() == 0);
            } else {
                assert(t.skip(lo as int)[0] == self.buf@[lo as int]);
            }
        }
        let ghost s = t.skip(lo as int);
        if lo < end && is_meta_char(self.buf[end - 1]) {
            return false;
        }
        proof {
            if s.len() > 0 {
                assert(s.last() == self.buf@[end - 1]);
            }
        }
        let ghost goal = no_separator(s, 0, false);
        assert(in_first_word(t) == goal);
        let mut pos: usize = lo;
        let mut in_dq = false;
        while pos < end
            invariant
                end == self.cursor(),
                end <= self.text().len(),
                t == self.text().take(end as int),
                lo <= pos <= end,
                s == t.skip(lo as int),
                no_separator(s, (pos - lo) as nat, in_dq) == goal,
                in_first_word(t) == goal,
            decreases end - pos,
        {
            let ch = self.buf[pos];
            proof {
                assert(s[pos - lo] == ch);
            }
            if in_dq {
                in_dq = ch != '"';
                pos = pos + 1;
            } else if is_meta_char(ch) {
                return false;
            } else if ch == '\'' {
                let j = self.find_quote(pos + 1, end);
                proof {
                    let u = s.skip(pos - lo + 1);
                    assert forall|k: int| 0 <= k < j - pos - 1 implies u[k] != '\'' by {
                        assert(u[k] == self.buf@[pos + 1 + k]);
                    }
                    if j < end {
                        assert(u[j - pos - 1] == self.buf@[j as int]);
                    }
                    crate::parse::lemma_first_index_is(u, '\'', j - pos - 1);
                }
                if j == end {
                    return true;
                }
                pos = j + 1;
            } else if ch == '"' {
                in_dq = true;
                pos = pos + 1;
            } else if ch == '\\' {
                if pos + 1 < end {
                    pos = pos + 2;
                } else {
                    return true;
                }
            } else {
                pos = pos + 1;
            }
        }
        true
    }

    /// Number of characters in the line.
    pub fn len(&self) -> (r: usize)
        ensures
            r == self.text().len(),
    {
        self.buf.len()
    }

    /// Empties the line and puts the cursor at its start.
    pub fn clear(&mut self)
        ensures
            final(self).wf(),
            final(self).text() == Seq::<char>::empty(),
            final(self).cursor() == 0,
            final(self).overwrite() == old(self).overwrite(),
    {
        self.buf.clear();
        self.idx = 0;
    }

    /// The text of the line.
    pub fn to_string(&self) -> (r: String)
        ensures
            r@ == self.text(),
    {
        let r = string_of(&self.buf, 0, self.buf.len());
        proof {
            assert(self.buf@.subrange(0, self.buf@.len() as int) =~= self.buf@);
        }
        r
    }

    /// The text from the cursor to the end of the line.
    pub fn after_cursor(&self) -> (r: String)
        requires
            self.wf(),
        ensures
            r@ == self.text().skip(self.cursor() as int),
    {
        let r = string_of(&self.buf, self.idx, self.buf.len());
        proof {
            assert(self.buf@.subrange(self.idx as int, self.buf@.len() as int) =~= self.buf@.skip(
                self.idx as int,
            ));
        }
        r
    }
}

} // verus!
