//! The decisions of the shell's main loop: which command a line names, where its
//! output goes, and what the builtins print.
use vstd::prelude::*;

use crate::parse::{Fragment, FragmentView};
use crate::text::{chars_eq, chars_of, push_char, push_str};

verus! {

/// The builtin commands.
pub enum Builtin {
    Exit,
    Echo,
    Type,
    Pwd,
    Cd,
}

/// The builtin a word names, if any.
pub open spec fn builtin_of(w: Seq<char>) -> Option<Builtin> {
    if w == seq!['e', 'x', 'i', 't'] {
        Some(Builtin::Exit)
    } else if w == seq!['e', 'c', 'h', 'o'] {
        Some(Builtin::Echo)
    } else if w == seq!['t', 'y', 'p', 'e'] {
        Some(Builtin::Type)
    } else if w == seq!['p', 'w', 'd'] {
        Some(Builtin::Pwd)
    } else if w == seq!['c', 'd'] {
        Some(Builtin::Cd)
    } else {
        None
    }
}

/// The builtin that `w` names, if any.
pub fn builtin(w: &String) -> (r: Option<Builtin>)
    ensures
        r == builtin_of(w@),
{
    let cs = chars_of(w.as_str());
    proof {
        assert(['e', 'x', 'i', 't']@ =~= seq!['e', 'x', 'i', 't']);
        assert(['e', 'c', 'h', 'o']@ =~= seq!['e', 'c', 'h', 'o']);
        assert(['t', 'y', 'p', 'e']@ =~= seq!['t', 'y', 'p', 'e']);
        assert(['p', 'w', 'd']@ =~= seq!['p', 'w', 'd']);
        assert(['c', 'd']@ =~= seq!['c', 'd']);
    }
    if chars_eq(&cs, &['e', 'x', 'i', 't']) {
        Some(Builtin::Exit)
    } else if chars_eq(&cs, &['e', 'c', 'h', 'o']) {
        Some(Builtin::Echo)
    } else if chars_eq(&cs, &['t', 'y', 'p', 'e']) {
        Some(Builtin::Type)
    } else if chars_eq(&cs, &['p', 'w', 'd']) {
        Some(Builtin::Pwd)
    } else if chars_eq(&cs, &['c', 'd']) {
        Some(Builtin::Cd)
    } else {
        None
    }
}

/// The words of a parsed line, redirections left out.
pub open spec fn words_of(fs: Seq<FragmentView>) -> Seq<Seq<char>>
    decreases fs.len(),
{
    if fs.len() == 0 {
        Seq::empty()
    } else {
        let rest = words_of(fs.drop_last());
        match fs.last() {
            FragmentView::Word(w) => rest.push(w),
            _ => rest,
        }
    }
}

/// The text of a word fragment.
pub open spec fn word_text(f: FragmentView) -> Seq<char> {
    match f {
        FragmentView::Word(w) => w,
        _ => Seq::empty(),
    }
}

/// Whether a fragment is a word.
pub open spec fn is_word_fragment() -> spec_fn(FragmentView) -> bool {
    |f: FragmentView| f is Word
}

/// The text of each fragment, taken as a word.
pub open spec fn word_texts() -> spec_fn(FragmentView) -> Seq<char> {
    |f: FragmentView| word_text(f)
}

/// The command's words are the word fragments of the line, all of them and in their
/// order, the redirections left out.
pub proof fn lemma_words_are_the_word_fragments(fs: Seq<FragmentView>)
    ensures
        words_of(fs) == fs.filter(is_word_fragment()).map_values(word_texts()),
    decreases fs.len(),
{
    if fs.len() > 0 {
        let p = is_word_fragment();
        lemma_words_are_the_word_fragments(fs.drop_last());
        let sub = fs.drop_last().filter(p);
        reveal(Seq::filter);
        assert(fs.filter(p) == if p(fs.last()) {
            sub.push(fs.last())
        } else {
            sub
        });
        if fs.last() is Word {
            assert(sub.push(fs.last()).map_values(word_texts()) =~= sub.map_values(word_texts()).push(
                word_text(fs.last()),
            ));
        }
    }
}

/// The words of `frags`, in order.
pub fn command_words(frags: &Vec<Fragment>) -> (r: Vec<String>)
    ensures
        r@.map_values(|s: String| s@) == words_of(crate::parse::fragments_view(frags@)),
{
    let ghost fv = crate::parse::fragments_view(frags@);
    let mut r: Vec<String> = Vec::new();
    let mut i: usize = 0;
    while i < frags.len()
        invariant
            i <= frags@.len(),
            fv == crate::parse::fragments_view(frags@),
            r@.map_values(|s: String| s@) == words_of(fv.take(i as int)),
        decreases frags@.len() - i,
    {
        proof {
            assert(fv.take(i + 1).drop_last() =~= fv.take(i as int));
            assert(fv.take(i + 1).last() == frags@[i as int]@);
        }
        match &frags[i] {
            Fragment::Word(w) => {
                let ghost before = r@;
                r.push(w.clone());
                proof {
                    assert(r@.map_values(|s: String| s@) =~= before.map_values(|s: String| s@).push(
                        w@,
                    ));
                }
            },
            _ => {},
        }
        i = i + 1;
    }
    proof {
        assert(fv.take(i as int) =~= fv);
    }
    r
}

/// The target of the last redirection of descriptor `fd` in `fs`, with whether it
/// truncates.
pub open spec fn last_redirect_of(fs: Seq<FragmentView>, fd: i32) -> Option<(Seq<char>, bool)>
    decreases fs.len(),
{
    if fs.len() == 0 {
        None
    } else {
        match fs.last() {
            FragmentView::RedirectFd { fd: f, path, truncate } if f == fd => Some((path, truncate)),
            _ => last_redirect_of(fs.drop_last(), fd),
        }
    }
}

/// The last redirection of `fd`: the one that decides where that output goes.
pub fn last_redirect(frags: &Vec<Fragment>, fd: i32) -> (r: Option<(String, bool)>)
    ensures
        match r {
            Some((p, t)) => last_redirect_of(crate::parse::fragments_view(frags@), fd) == Some(
                (p@, t),
            ),
            None => last_redirect_of(crate::parse::fragments_view(frags@), fd) is None,
        },
{
    let ghost fv = crate::parse::fragments_view(frags@);
    let mut i: usize = frags.len();
    proof {
        assert(fv.take(i as int) =~= fv);
    }
    while i > 0
        invariant
            i <= frags@.len(),
            fv == crate::parse::fragments_view(frags@),
            last_redirect_of(fv, fd) == last_redirect_of(fv.take(i as int), fd),
        decreases i,
    {
        proof {
            assert(fv.take(i as int).drop_last() =~= fv.take(i - 1));
            assert(fv.take(i as int).last() == frags@[i - 1]@);
        }
        match &frags[i - 1] {
            Fragment::RedirectFd { fd: f, path, truncate } => {
                if *f == fd {
                    return Some((path.clone(), *truncate));
                }
            },
            _ => {},
        }
        i = i - 1;
    }
    None
}

/// The redirection of descriptor `fd` that counts is the last one of that descriptor
/// written on the line: its target, with its own truncate flag (`>>` appends, whatever
/// the descriptor).
pub proof fn lemma_last_redirect_is_the_last_written(
    fs: Seq<FragmentView>,
    fd: i32,
    i: int,
    path: Seq<char>,
    truncate: bool,
)
    requires
        0 <= i < fs.len(),
        fs[i] == (FragmentView::RedirectFd { fd, path, truncate }),
        forall|j: int| i < j < fs.len() ==> !(#[trigger] fs[j] matches FragmentView::RedirectFd { fd: f, .. } && f == fd),
    ensures
        last_redirect_of(fs, fd) == Some((path, truncate)),
    decreases fs.len(),
{
    if i < fs.len() - 1 {
        let t = fs.drop_last();
        assert(!(fs[fs.len() - 1] matches FragmentView::RedirectFd { fd: f, .. } && f == fd));
        assert(t[i] == fs[i]);
        assert forall|j: int| i < j < t.len() implies !(#[trigger] t[j] matches FragmentView::RedirectFd { fd: f, .. } && f == fd) by {
            assert(t[j] == fs[j]);
        }
        lemma_last_redirect_is_the_last_written(t, fd, i, path, truncate);
    }
}

/// A line with no redirection of descriptor `fd` leaves that descriptor alone.
pub proof fn lemma_no_redirect_written(fs: Seq<FragmentView>, fd: i32)
    requires
        forall|j: int| 0 <= j < fs.len() ==> !(#[trigger] fs[j] matches FragmentView::RedirectFd { fd: f, .. } && f == fd),
    ensures
        last_redirect_of(fs, fd) is None,
    decreases fs.len(),
{
    if fs.len() > 0 {
        let t = fs.drop_last();
        assert(!(fs[fs.len() - 1] matches FragmentView::RedirectFd { fd: f, .. } && f == fd));
        assert forall|j: int| 0 <= j < t.len() implies !(#[trigger] t[j] matches FragmentView::RedirectFd { fd: f, .. } && f == fd) by {
            assert(t[j] == fs[j]);
        }
        lemma_no_redirect_written(t, fd);
    }
}

/// The words `ws` joined by single blanks.
pub open spec fn join_blank(ws: Seq<Seq<char>>) -> Seq<char>
    decreases ws.len(),
{
    if ws.len() == 0 {
        Seq::empty()
    } else if ws.len() == 1 {
        ws[0]
    } else {
        join_blank(ws.drop_last()) + seq![' '] + ws.last()
    }
}

/// Where word `i` of `ws` begins when the words are written one after the other with
/// one blank between each two.
pub open spec fn word_offset(ws: Seq<Seq<char>>, i: int) -> int
    decreases i,
{
    if i <= 0 {
        0
    } else {
        word_offset(ws, i - 1) + ws[i - 1].len() + 1
    }
}

proof fn lemma_word_offset_prefix(ws: Seq<Seq<char>>, n: int, i: int)
    requires
        0 <= i <= n <= ws.len(),
    ensures
        word_offset(ws.take(n), i) == word_offset(ws, i),
    decreases i,
{
    if i > 0 {
        lemma_word_offset_prefix(ws, n, i - 1);
        assert(ws.take(n)[i - 1] == ws[i - 1]);
    }
}

proof fn lemma_join_len(ws: Seq<Seq<char>>)
    requires
        ws.len() > 0,
    ensures
        join_blank(ws).len() == word_offset(ws, ws.len() - 1) + ws.last().len(),
    decreases ws.len(),
{
    let n = ws.len() as int;
    if n > 1 {
        let p = ws.drop_last();
        lemma_join_len(p);
        assert(p =~= ws.take(n - 1));
        lemma_word_offset_prefix(ws, n - 1, n - 2);
        assert(p.last() == ws[n - 2]);
    }
}

proof fn lemma_join_word(ws: Seq<Seq<char>>, i: int)
    requires
        0 <= i < ws.len(),
    ensures
        join_blank(ws).subrange(word_offset(ws, i), word_offset(ws, i) + ws[i].len()) == ws[i],
    decreases ws.len(),
{
    let n = ws.len() as int;
    let j = join_blank(ws);
    if n == 1 {
        assert(j.subrange(0, ws[0].len() as int) =~= ws[0]);
    } else {
        let p = ws.drop_last();
        let jp = join_blank(p);
        assert(j == jp + seq![' '] + ws.last());
        assert(p =~= ws.take(n - 1));
        lemma_join_len(p);
        lemma_word_offset_prefix(ws, n - 1, n - 2);
        assert(p.last() == ws[n - 2]);
        if i < n - 1 {
            lemma_join_word(p, i);
            lemma_word_offset_prefix(ws, n - 1, i);
            assert(p[i] == ws[i]);
            lemma_word_offset_mono(ws, i, n - 2);
            assert(j.subrange(word_offset(ws, i), word_offset(ws, i) + ws[i].len()) =~= jp.subrange(
                word_offset(ws, i),
                word_offset(ws, i) + ws[i].len(),
            ));
        } else {
            assert(j.subrange(word_offset(ws, i), word_offset(ws, i) + ws[i].len()) =~= ws.last());
        }
    }
}

proof fn lemma_join_blank_after(ws: Seq<Seq<char>>, i: int)
    requires
        0 <= i < ws.len() - 1,
    ensures
        join_blank(ws)[word_offset(ws, i) + ws[i].len()] == ' ',
    decreases ws.len(),
{
    let n = ws.len() as int;
    let p = ws.drop_last();
    let jp = join_blank(p);
    let j = join_blank(ws);
    assert(j == jp + seq![' '] + ws.last());
    assert(p =~= ws.take(n - 1));
    lemma_join_len(p);
    lemma_word_offset_prefix(ws, n - 1, n - 2);
    lemma_word_offset_prefix(ws, n - 1, i);
    assert(p.last() == ws[n - 2]);
    assert(p[i] == ws[i]);
    lemma_word_offset_mono(ws, i, n - 2);
    if i < n - 2 {
        lemma_join_blank_after(p, i);
        assert(j[word_offset(ws, i) + ws[i].len()] == jp[word_offset(ws, i) + ws[i].len()]);
    } else {
        assert(j[jp.len() as int] == ' ');
    }
}

/// The words joined by single blanks: every word in order, each at its offset, one
/// blank after each word but the last, and nothing more; a single word is itself.
pub proof fn lemma_join_blank_layout(ws: Seq<Seq<char>>)
    ensures
        ws.len() == 0 ==> join_blank(ws).len() == 0,
        ws.len() == 1 ==> join_blank(ws) == ws[0],
        ws.len() > 0 ==> join_blank(ws).len() == word_offset(ws, ws.len() - 1) + ws.last().len(),
        forall|i: int| 0 <= i < ws.len() ==> join_blank(ws).subrange(
            word_offset(ws, i),
            word_offset(ws, i) + ws[i].len(),
        ) == #[trigger] ws[i],
        forall|i: int| 0 <= i < ws.len() - 1 ==> join_blank(ws)[word_offset(ws, i) + #[trigger] ws[i].len()]
            == ' ',
{
    if ws.len() > 0 {
        lemma_join_len(ws);
    }
    assert forall|i: int| 0 <= i < ws.len() implies join_blank(ws).subrange(
        word_offset(ws, i),
        word_offset(ws, i) + ws[i].len(),
    ) == #[trigger] ws[i] by {
        lemma_join_word(ws, i);
    }
    assert forall|i: int| 0 <= i < ws.len() - 1 implies join_blank(ws)[word_offset(ws, i)
        + #[trigger] ws[i].len()] == ' ' by {
        lemma_join_blank_after(ws, i);
    }
}

proof fn lemma_word_offset_mono(ws: Seq<Seq<char>>, i: int, k: int)
    requires
        0 <= i <= k < ws.len(),
    ensures
        0 <= word_offset(ws, i) <= word_offset(ws, k),
        word_offset(ws, i) + ws[i].len() <= word_offset(ws, k) + ws[k].len(),
        i < k ==> word_offset(ws, i) + ws[i].len() < word_offset(ws, k),
    decreases k - i,
{
    if i < k {
        lemma_word_offset_mono(ws, i, k - 1);
    } else {
        lemma_word_offset_nonneg(ws, i);
    }
}

proof fn lemma_word_offset_nonneg(ws: Seq<Seq<char>>, i: int)
    ensures
        word_offset(ws, i) >= 0,
    decreases i,
{
    if i > 0 {
        lemma_word_offset_nonneg(ws, i - 1);
    }
}

/// What `echo` prints (before its line break): its arguments `args[from..]`, joined by
/// single blanks.
pub fn echo_line(args: &Vec<String>, from: usize) -> (r: String)
    requires
        from <= args@.len(),
    ensures
        r@ == join_blank(args@.skip(from as int).map_values(|s: String| s@)),
{
    let ghost ws = args@.skip(from as int).map_values(|s: String| s@);
    let mut r = String::new();
    let mut i: usize = from;
    while i < args.len()
        invariant
            from <= i <= args@.len(),
            ws == args@.skip(from as int).map_values(|s: String| s@),
            r@ == join_blank(ws.take(i - from)),
        decreases args@.len() - i,
    {
        proof {
            assert(ws.take(i + 1 - from).drop_last() =~= ws.take(i - from));
            assert(ws.take(i + 1 - from).last() == args@[i as int]@);
        }
        if i > from {
            push_char(&mut r, ' ');
        }
        push_str(&mut r, args[i].as_str());
        proof {
            if i == from {
                assert(r@ =~= join_blank(ws.take(i + 1 - from)));
            }
        }
        i = i + 1;
    }
    proof {
        assert(ws.take(i - from) =~= ws);
    }
    r
}

/// Where a message is written.
pub enum Stream {
    Stdout,
    Stderr,
}

/// What `type` does next with its arguments.
pub enum TypeStep {
    /// No argument: nothing to say.
    Nothing,
    /// A builtin: this line for standard output.
    Builtin(String),
    /// Not a builtin: the executable named by the first argument must be looked up.
    Lookup,
}

/// `type`'s first step: a builtin is reported at once, anything else is looked up.
pub fn type_step(args: &Vec<String>) -> (r: TypeStep)
    ensures
        args@.len() == 0 ==> r is Nothing,
        args@.len() > 0 && builtin_of(args@[0]@) is Some ==> (r matches TypeStep::Builtin(line)
            && line@ == args@[0]@ + " is a shell builtin"@),
        args@.len() > 0 && builtin_of(args@[0]@) is None ==> r is Lookup,
{
    if args.len() == 0 {
        return TypeStep::Nothing;
    }
    match builtin(&args[0]) {
        Some(_) => {
            let mut line = args[0].clone();
            push_str(&mut line, " is a shell builtin");
            TypeStep::Builtin(line)
        },
        None => TypeStep::Lookup,
    }
}

/// `type`'s report on `cmd` once looked up: `cmd is PATH` on standard output when an
/// executable was found at `found`, `cmd: not found` on standard error when not.
pub fn type_report(cmd: &String, found: Option<String>) -> (r: (Stream, String))
    ensures
        match found {
            Some(p) => r.0 is Stdout && r.1@ == cmd@ + " is "@ + p@,
            None => r.0 is Stderr && r.1@ == cmd@ + ": not found"@,
        },
{
    let mut line = cmd.clone();
    match found {
        Some(p) => {
            push_str(&mut line, " is ");
            push_str(&mut line, p.as_str());
            (Stream::Stdout, line)
        },
        None => {
            push_str(&mut line, ": not found");
            (Stream::Stderr, line)
        },
    }
}

/// What `Path::strip_prefix` leaves of `path` after the leading components `base`.
pub uninterp spec fn path_strip_prefix(path: Seq<char>, base: Seq<char>) -> Option<Seq<char>>;

/// The path `base` with `rel` pushed onto it, as `PathBuf::push` builds it.
pub uninterp spec fn path_join(base: Seq<char>, rel: Seq<char>) -> Seq<char>;

/// `Path::strip_prefix`: the rest of `path` after the leading components `base`, or
/// `None` when `path` does not begin with them. The contract names the result and
/// claims nothing more of it.
#[verifier::external_body]
fn strip_path_prefix(path: &String, base: &str) -> (r: Option<String>)
    ensures
        match r {
            Some(rel) => path_strip_prefix(path@, base@) == Some(rel@),
            None => path_strip_prefix(path@, base@) is None,
        },
{
    std::path::Path::new(path.as_str()).strip_prefix(base).ok().map(|rel| rel.to_string_lossy().into_owned())
}

/// `PathBuf::push`: the path `base` with `rel` pushed onto it. The contract names the
/// result and claims nothing more of it.
#[verifier::external_body]
fn push_path(base: &String, rel: &String) -> (r: String)
    ensures
        r@ == path_join(base@, rel@),
{
    let mut p = std::path::PathBuf::from(base.as_str());
    p.push(rel.as_str());
    p.to_string_lossy().into_owned()
}

/// The text an optional string holds.
pub open spec fn opt_view(o: Option<String>) -> Option<Seq<char>> {
    match o {
        Some(h) => Some(h@),
        None => None,
    }
}

/// The path `arg` of `cd`, given what is left of it after a leading `~` component
/// (`rest`, `None` when it has none) and the home directory `home`: `rest` pushed onto
/// the home directory when both are there, `arg` itself otherwise.
pub open spec fn home_expanded(
    arg: Seq<char>,
    rest: Option<Seq<char>>,
    home: Option<Seq<char>>,
) -> Seq<char> {
    match (rest, home) {
        (Some(rel), Some(h)) => path_join(h, rel),
        _ => arg,
    }
}

/// Expands the path `arg` of `cd`; see `home_expanded`.
pub fn expand_home(arg: &String, rest: Option<String>, home: Option<String>) -> (r: String)
    ensures
        r@ == home_expanded(arg@, opt_view(rest), opt_view(home)),
{
    match rest {
        Some(rel) => match home {
            Some(h) => push_path(&h, &rel),
            None => arg.clone(),
        },
        None => arg.clone(),
    }
}

/// Where `cd` with the arguments `args` goes: `None` with no argument; else the first
/// argument, with a leading `~` component replaced by the home directory `home` when
/// there is one.
pub open spec fn cd_target_of(args: Seq<Seq<char>>, home: Option<Seq<char>>) -> Option<Seq<char>> {
    if args.len() == 0 {
        None
    } else {
        Some(home_expanded(args[0], path_strip_prefix(args[0], seq!['~']), home))
    }
}

/// The directory `cd` changes to; see `cd_target_of`.
pub fn cd_target(args: &Vec<String>, home: Option<String>) -> (r: Option<String>)
    ensures
        match r {
            Some(t) => cd_target_of(args@.map_values(|s: String| s@), opt_view(home)) == Some(t@),
            None => cd_target_of(args@.map_values(|s: String| s@), opt_view(home)) is None,
        },
{
    if args.len() == 0 {
        return None;
    }
    let arg = &args[0];
    proof {
        assert(args@.map_values(|s: String| s@)[0] == arg@);
        reveal_strlit("~");
        assert("~"@ =~= seq!['~']);
    }
    let rest = strip_path_prefix(arg, "~");
    Some(expand_home(arg, rest, home))
}

/// `cd`'s report when changing to the directory shown as `shown` failed with the
/// error text `err`: a missing directory is reported on standard error, any other
/// failure on standard output with the error's own text.
pub fn cd_report(shown: &String, not_found: bool, err: &String) -> (r: (Stream, String))
    ensures
        not_found ==> r.0 is Stderr && r.1@ == "cd: "@ + shown@ + ": No such file or directory"@,
        !not_found ==> r.0 is Stdout && r.1@ == "cd: "@ + shown@ + ": "@ + err@,
{
    let mut line = String::new();
    push_str(&mut line, "cd: ");
    push_str(&mut line, shown.as_str());
    if not_found {
        push_str(&mut line, ": No such file or directory");
        (Stream::Stderr, line)
    } else {
        push_str(&mut line, ": ");
        push_str(&mut line, err.as_str());
        (Stream::Stdout, line)
    }
}

/// The reply to a command that is neither a builtin nor an executable.
pub fn not_found_message(cmd: &String) -> (r: String)
    ensures
        r@ == cmd@ + ": command not found"@,
{
    let mut line = cmd.clone();
    push_str(&mut line, ": command not found");
    line
}

/// Whether a file with these permission bits can be run: it is a regular file and
/// someone may execute it.
pub fn is_executable_mode(is_file: bool, mode: u32) -> (r: bool)
    ensures
        r == (is_file && mode & 0o111u32 != 0),
{
    is_file && mode & 0o111 != 0
}

/// The pieces of `bytes` between the colons, in order.
pub open spec fn colon_pieces(bytes: Seq<u8>) -> Seq<Seq<u8>>
    decreases bytes.len(),
{
    if bytes.len() == 0 {
        seq![Seq::empty()]
    } else {
        let rest = colon_pieces(bytes.drop_last());
        if bytes.last() == 58u8 {
            rest.push(Seq::empty())
        } else {
            rest.update(rest.len() - 1, rest.last().push(bytes.last()))
        }
    }
}

proof fn lemma_colon_pieces_nonempty(bytes: Seq<u8>)
    ensures
        colon_pieces(bytes).len() >= 1,
    decreases bytes.len(),
{
    if bytes.len() > 0 {
        lemma_colon_pieces_nonempty(bytes.drop_last());
    }
}

/// `pieces` joined by colons.
pub open spec fn join_colon(pieces: Seq<Seq<u8>>) -> Seq<u8>
    decreases pieces.len(),
{
    if pieces.len() == 0 {
        Seq::empty()
    } else if pieces.len() == 1 {
        pieces[0]
    } else {
        join_colon(pieces.drop_last()) + seq![58u8] + pieces.last()
    }
}

/// Splitting at the colons loses nothing: joining the pieces with colons gives the
/// value back, and no piece holds a colon.
pub proof fn lemma_colon_pieces_roundtrip(bytes: Seq<u8>)
    ensures
        join_colon(colon_pieces(bytes)) == bytes,
        forall|i: int, j: int|
            0 <= i < colon_pieces(bytes).len() && 0 <= j < colon_pieces(bytes)[i].len()
                ==> #[trigger] colon_pieces(bytes)[i][j] != 58u8,
    decreases bytes.len(),
{
    lemma_colon_pieces_nonempty(bytes);
    if bytes.len() == 0 {
        assert(join_colon(colon_pieces(bytes)) =~= bytes);
    } else {
        let pre = bytes.drop_last();
        lemma_colon_pieces_roundtrip(pre);
        lemma_colon_pieces_nonempty(pre);
        let rest = colon_pieces(pre);
        let ps = colon_pieces(bytes);
        if bytes.last() == 58u8 {
            assert(bytes =~= pre + seq![58u8]);
            assert(ps.drop_last() =~= rest);
            assert(join_colon(ps) =~= bytes);
            assert forall|i: int, j: int| 0 <= i < ps.len() && 0 <= j < ps[i].len() implies #[trigger] ps[i][j]
                != 58u8 by {
                if i < rest.len() {
                    assert(ps[i] == rest[i]);
                }
            }
        } else {
            let k = rest.len() - 1;
            assert(bytes =~= pre.push(bytes.last()));
            assert(ps.drop_last() =~= rest.drop_last());
            assert(ps.last() == rest.last().push(bytes.last()));
            if rest.len() == 1 {
                assert(join_colon(rest) == rest[0]);
                assert(join_colon(ps) =~= bytes);
            } else {
                assert(join_colon(rest) == join_colon(rest.drop_last()) + seq![58u8] + rest.last());
                assert(join_colon(ps) =~= bytes);
            }
            assert forall|i: int, j: int| 0 <= i < ps.len() && 0 <= j < ps[i].len() implies #[trigger] ps[i][j]
                != 58u8 by {
                if i < k {
                    assert(ps[i] == rest[i]);
                } else if j < rest[k].len() {
                    assert(ps[i][j] == rest[k][j]);
                }
            }
        }
    }
}

/// The directories listed in a `PATH` value: its pieces between colons, empty ones
/// included.
pub fn split_path_list(bytes: &[u8]) -> (r: Vec<Vec<u8>>)
    ensures
        r@.map_values(|p: Vec<u8>| p@) == colon_pieces(bytes@),
{
    let mut r: Vec<Vec<u8>> = Vec::new();
    let mut cur: Vec<u8> = Vec::new();
    let mut i: usize = 0;
    while i < bytes.len()
        invariant
            i <= bytes@.len(),
            r@.map_values(|p: Vec<u8>| p@).push(cur@) == colon_pieces(bytes@.take(i as int)),
        decreases bytes@.len() - i,
    {
        let ghost before = r@.map_values(|p: Vec<u8>| p@).push(cur@);
        proof {
            assert(bytes@.take(i + 1).drop_last() =~= bytes@.take(i as int));
            assert(bytes@.take(i + 1).last() == bytes@[i as int]);
            lemma_colon_pieces_nonempty(bytes@.take(i as int));
        }
        if bytes[i] == 58u8 {
            let mut done: Vec<u8> = Vec::new();
            std::mem::swap(&mut done, &mut cur);
            r.push(done);
            proof {
                assert(r@.map_values(|p: Vec<u8>| p@).push(cur@) =~= before.push(Seq::empty()));
            }
        } else {
            cur.push(bytes[i]);
            proof {
                assert(r@.map_values(|p: Vec<u8>| p@).push(cur@) =~= before.update(
                    before.len() - 1,
                    before.last().push(bytes@[i as int]),
                ));
            }
        }
        i = i + 1;
    }
    proof {
        assert(bytes@.take(i as int) =~= bytes@);
    }
    r.push(cur);
    r
}

/// Terminal flags for reading the command line key by key: canonical mode, echo and
/// control-character echo off; signals and extended input processing on; carriage
/// return read as newline; output processing on.
pub struct ReplFlags {
    pub lflag: u32,
    pub iflag: u32,
    pub oflag: u32,
    /// Least number of bytes a read waits for.
    pub vmin: u8,
    /// Read timeout, in tenths of a second.
    pub vtime: u8,
}

/// The flags the prompt runs with, from the terminal's own flags and the bits of the
/// platform: `off` (canonical mode, echo, control echo) cleared and `on` (signals,
/// extended input) set in the local flags, `icrnl` set in the input flags, `opost`
/// set in the output flags; reads wait for one byte, with no timeout.
pub fn repl_flags(orig: &ReplFlags, off: u32, on: u32, icrnl: u32, opost: u32) -> (r: ReplFlags)
    ensures
        r.lflag == (orig.lflag & !off) | on,
        r.iflag == orig.iflag | icrnl,
        r.oflag == orig.oflag | opost,
        r.vmin == 1,
        r.vtime == 0,
{
    let mut lflag = orig.lflag;
    lflag = lflag & !off;
    lflag = lflag | on;
    ReplFlags { lflag, iflag: orig.iflag | icrnl, oflag: orig.oflag | opost, vmin: 1, vtime: 0 }
}

} // verus!
