//! What the prompt does with each key event.
use vstd::prelude::*;

use crate::input::InputData;
use crate::terminal::{
    completion_source, screen_wf, sent, spec_alert, spec_backspace, spec_complete,
    spec_cursor_end, spec_cursor_home, spec_cursor_left, spec_cursor_right, spec_delete,
    spec_type, Completions, Screen, Terminal,
};
use crate::text::{chars_eq, chars_of};
use crate::trie::Trie;

verus! {

/// What the prompt does next.
pub enum Reaction<'a> {
    /// Keep reading keys.
    Continue,
    /// The line was entered.
    Submit(String),
    /// Completion rang the bell; each further Tab lists the words below this node.
    List(&'a Trie),
}

/// The effect of a control sequence: the arrows move the cursor (up and down only
/// ring the bell), Home and End jump, Insert toggles overwriting, Delete deletes,
/// Page Up and Page Down ring the bell, and anything else is ignored.
pub open spec fn csi_effect(s: Screen, seq: Seq<char>) -> Screen {
    if seq == seq!['A'] || seq == seq!['B'] || seq == seq!['5', '~'] || seq == seq!['6', '~'] {
        spec_alert(s)
    } else if seq == seq!['C'] {
        spec_cursor_right(s)
    } else if seq == seq!['D'] {
        spec_cursor_left(s)
    } else if seq == seq!['H'] {
        spec_cursor_home(s)
    } else if seq == seq!['F'] {
        spec_cursor_end(s)
    } else if seq == seq!['2', '~'] {
        Screen { overwrite: !s.overwrite, ..s }
    } else if seq == seq!['3', '~'] {
        spec_delete(s)
    } else {
        s
    }
}

/// The effect of a character other than Enter and Tab: carriage return goes home,
/// EOT is echoed, backspace and DEL erase backwards, other control characters do
/// nothing, and anything else is typed.
pub open spec fn char_effect(s: Screen, c: char) -> Screen {
    if c == '\r' {
        spec_cursor_home(s)
    } else if c == '\x04' {
        sent(s, seq!['\x04'])
    } else if c == '\x08' || c == '\x7F' {
        spec_backspace(s)
    } else if ' ' > c {
        s
    } else {
        spec_type(s, c)
    }
}

/// A character the prompt types into the line.
pub open spec fn printable(c: char) -> bool {
    ' ' <= c && c != '\x7F'
}

/// The screen after the keys `cs`, none of them Enter or Tab.
pub open spec fn keys_effect(s: Screen, cs: Seq<char>) -> Screen
    decreases cs.len(),
{
    if cs.len() == 0 {
        s
    } else {
        keys_effect(char_effect(s, cs[0]), cs.drop_first())
    }
}

/// Printable characters typed at the end of the line, in insert mode, are echoed and
/// appended to the line, so Enter then hands over exactly what was typed.
pub proof fn lemma_typed_text_is_entered(s: Screen, cs: Seq<char>)
    requires
        s.cursor == s.text.len(),
        !s.overwrite,
        forall|i: int| 0 <= i < cs.len() ==> #[trigger] printable(cs[i]),
    ensures
        keys_effect(s, cs) == (Screen {
            text: s.text + cs,
            cursor: s.text.len() + cs.len(),
            overwrite: false,
            out: s.out + cs,
        }),
    decreases cs.len(),
{
    if cs.len() == 0 {
        assert(s.text + cs =~= s.text);
        assert(s.out + cs =~= s.out);
    } else {
        let c = cs[0];
        assert(printable(c));
        let s1 = char_effect(s, c);
        assert(s1 == spec_type(s, c));
        assert(s.text.insert(s.cursor as int, c) =~= s.text.push(c));
        let rest = cs.drop_first();
        assert forall|i: int| 0 <= i < rest.len() implies #[trigger] printable(rest[i]) by {
            assert(rest[i] == cs[i + 1]);
        }
        lemma_typed_text_is_entered(s1, rest);
        assert(s.text.push(c) + rest =~= s.text + cs);
        assert(s.out + seq![c] + rest =~= s.out + cs);
    }
}

/// Backspace right after typing a character in insert mode gives back the line and
/// the cursor as they were.
pub proof fn lemma_backspace_undoes_typing(s: Screen, c: char)
    requires
        screen_wf(s),
        !s.overwrite,
    ensures
        spec_backspace(spec_type(s, c)).text == s.text,
        spec_backspace(spec_type(s, c)).cursor == s.cursor,
        spec_backspace(spec_type(s, c)).overwrite == s.overwrite,
{
    let t = s.text.insert(s.cursor as int, c);
    assert(t.remove(s.cursor as int) =~= s.text);
}

/// Moving right and then left puts the cursor back, unless it was at the end.
pub proof fn lemma_left_undoes_right(s: Screen)
    requires
        screen_wf(s),
        s.cursor < s.text.len(),
    ensures
        spec_cursor_left(spec_cursor_right(s)).cursor == s.cursor,
        spec_cursor_left(spec_cursor_right(s)).text == s.text,
{
}

/// Applies the control sequence `seq`.
pub fn handle_csi(t: &mut Terminal, seq: &String)
    requires
        screen_wf(old(t).screen()),
    ensures
        screen_wf(final(t).screen()),
        final(t).screen() == csi_effect(old(t).screen(), seq@),
{
    let cs = chars_of(seq.as_str());
    proof {
        assert(['A']@ =~= seq!['A']);
        assert(['B']@ =~= seq!['B']);
        assert(['C']@ =~= seq!['C']);
        assert(['D']@ =~= seq!['D']);
        assert(['H']@ =~= seq!['H']);
        assert(['F']@ =~= seq!['F']);
        assert(['2', '~']@ =~= seq!['2', '~']);
        assert(['3', '~']@ =~= seq!['3', '~']);
        assert(['5', '~']@ =~= seq!['5', '~']);
        assert(['6', '~']@ =~= seq!['6', '~']);
    }
    if chars_eq(&cs, &['A']) || chars_eq(&cs, &['B']) || chars_eq(&cs, &['5', '~']) || chars_eq(
        &cs,
        &['6', '~'],
    ) {
        t.alert();
    } else if chars_eq(&cs, &['C']) {
        t.cursor_right();
    } else if chars_eq(&cs, &['D']) {
        t.cursor_left();
    } else if chars_eq(&cs, &['H']) {
        t.cursor_home();
    } else if chars_eq(&cs, &['F']) {
        t.cursor_end();
    } else if chars_eq(&cs, &['2', '~']) {
        t.toggle_insert_mode();
    } else if chars_eq(&cs, &['3', '~']) {
        t.delete();
    }
}

/// Handles one key event at the prompt.
pub fn handle_input<'a>(t: &mut Terminal, ev: InputData, completions: &'a Completions) -> (r:
    Reaction<'a>)
    requires
        screen_wf(old(t).screen()),
        completions.commands.wf(),
        completions.files.wf(),
    ensures
        screen_wf(final(t).screen()),
        match ev {
            InputData::CsiSeq(seq) => r is Continue && final(t).screen() == csi_effect(
                old(t).screen(),
                seq@,
            ),
            InputData::Char(c) => if c == '\n' {
                &&& r matches Reaction::Submit(line) && line@ == old(t).screen().text
                &&& final(t).screen() == (Screen {
                    text: Seq::empty(),
                    cursor: 0,
                    out: old(t).screen().out + seq!['\n'],
                    ..old(t).screen()
                })
            } else if c == '\t' {
                let (s, m) = spec_complete(old(t).screen(), completion_source(*completions, old(t).screen()));
                &&& final(t).screen() == s
                &&& match m {
                    None => r is Continue,
                    Some(n) => r matches Reaction::List(x) && *x == n,
                }
            } else {
                r is Continue && final(t).screen() == char_effect(old(t).screen(), c)
            },
        },
{
    match ev {
        InputData::CsiSeq(seq) => {
            handle_csi(t, &seq);
            Reaction::Continue
        },
        InputData::Char(c) => {
            if c == '\n' {
                Reaction::Submit(t.submit())
            } else if c == '\t' {
                match t.complete(completions) {
                    Some(min) => Reaction::List(min),
                    None => Reaction::Continue,
                }
            } else {
                if c == '\r' {
                    t.cursor_home();
                } else if c == '\x04' {
                    t.send_eot();
                } else if c == '\x08' || c == '\x7F' {
                    t.backspace();
                } else if ' ' > c {
                } else {
                    t.type_char(c);
                }
                Reaction::Continue
            }
        },
    }
}

} // verus!
