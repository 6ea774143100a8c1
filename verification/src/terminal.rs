//! The prompt's line editor: what each key does to the line and which bytes it sends
//! to the terminal.
use vstd::prelude::*;

use crate::buffer::Buffer;
use crate::text::{chars_of, push_char, string_of};
use crate::trie::Trie;
use vstd::utf8::encode_utf8;

verus! {

/// ESC 7: save the cursor position.
pub open spec fn save_cursor_seq() -> Seq<char> {
    seq!['\x1B', '7']
}

/// ESC [ K: erase from the cursor to the end of the line.
pub open spec fn erase_line_seq() -> Seq<char> {
    seq!['\x1B', '[', 'K']
}

/// ESC 8: restore the saved cursor position.
pub open spec fn restore_cursor_seq() -> Seq<char> {
    seq!['\x1B', '8']
}

/// BEL.
pub open spec fn bell_seq() -> Seq<char> {
    seq!['\x07']
}

/// The decimal digits of `n`.
pub open spec fn decimal(n: nat) -> Seq<char>
    decreases n,
{
    if n < 10 {
        seq![digit(n)]
    } else {
        decimal(n / 10) + seq![digit(n % 10)]
    }
}

/// The digit character for `d` below 10.
pub open spec fn digit(d: nat) -> char {
    if d == 0 {
        '0'
    } else if d == 1 {
        '1'
    } else if d == 2 {
        '2'
    } else if d == 3 {
        '3'
    } else if d == 4 {
        '4'
    } else if d == 5 {
        '5'
    } else if d == 6 {
        '6'
    } else if d == 7 {
        '7'
    } else if d == 8 {
        '8'
    } else {
        '9'
    }
}

/// The number that the decimal digits `s` write, most significant first.
pub open spec fn digits_value(s: Seq<char>) -> int
    decreases s.len(),
{
    if s.len() == 0 {
        0
    } else {
        digits_value(s.drop_last()) * 10 + (s.last() as int - '0' as int)
    }
}

/// Decimal digits only.
pub open spec fn all_digits(s: Seq<char>) -> bool {
    forall|i: int| 0 <= i < s.len() ==> '0' <= #[trigger] s[i] && s[i] <= '9'
}

/// `decimal(n)` is the usual way of writing `n`: at least one digit, only digits, no
/// leading zero, and read most significant digit first it is `n`.
pub proof fn lemma_decimal_writes_n(n: nat)
    ensures
        decimal(n).len() > 0,
        all_digits(decimal(n)),
        digits_value(decimal(n)) == n,
        n > 0 ==> decimal(n)[0] != '0',
    decreases n,
{
    if n >= 10 {
        lemma_decimal_writes_n(n / 10);
        let a = decimal(n / 10);
        let d = digit(n % 10);
        let t = a + seq![d];
        assert(t.drop_last() =~= a);
        assert(t.last() == d);
        assert(d as int - '0' as int == n % 10);
        assert((n / 10) * 10 + n % 10 == n);
        assert(digits_value(t) == digits_value(a) * 10 + (d as int - '0' as int));
        assert(t[0] == a[0]);
        assert forall|i: int| 0 <= i < t.len() implies '0' <= #[trigger] t[i] && t[i] <= '9' by {
            if i < a.len() {
                assert(t[i] == a[i]);
            }
        }
    } else {
        let t = seq![digit(n)];
        assert(t.drop_last() =~= Seq::<char>::empty());
        assert(digit(n) as int - '0' as int == n);
        assert(digits_value(t) == digits_value(t.drop_last()) * 10 + (t.last() as int - '0' as int));
    }
}

/// End, away from the end of the line, moves the cursor to the end and sends `ESC [`,
/// a column and `G`, the column written in decimal digits being 3 (the prompt's width
/// and one) plus the length of the line.
pub proof fn lemma_end_goes_to_the_column_after_the_line(s: Screen)
    requires
        s.cursor != s.text.len(),
    ensures
        spec_cursor_end(s).cursor == s.text.len(),
        spec_cursor_end(s).text == s.text,
        exists|d: Seq<char>| #[trigger] all_digits(d) && d.len() > 0 && (d[0] == '0' ==> d.len() == 1)
            && digits_value(d) == 3 + s.text.len() && spec_cursor_end(s).out == s.out + seq![
                '\x1B',
                '[',
            ] + d + seq!['G'],
{
    let n = (3 + s.text.len()) as nat;
    lemma_decimal_writes_n(n);
    let d = decimal(n);
    assert(all_digits(d) && d.len() > 0 && (d[0] == '0' ==> d.len() == 1) && digits_value(d)
        == 3 + s.text.len());
    assert(spec_cursor_end(s).out == s.out + seq!['\x1B', '['] + d + seq!['G']);
}

/// What redrawing the line from the cursor sends: save the cursor, erase to the end
/// of the line, write the text after the cursor, restore the cursor.
pub open spec fn refresh_seq(text: Seq<char>, cursor: nat) -> Seq<char> {
    save_cursor_seq() + erase_line_seq() + text.skip(cursor as int) + restore_cursor_seq()
}

/// What the editor looks like: the line, its cursor, whether typing overwrites, and
/// the output produced so far.
pub struct Screen {
    pub text: Seq<char>,
    pub cursor: nat,
    pub overwrite: bool,
    pub out: Seq<char>,
}

/// `s` with `extra` sent to the terminal.
pub open spec fn sent(s: Screen, extra: Seq<char>) -> Screen {
    Screen { out: s.out + extra, ..s }
}

/// Ringing the bell.
pub open spec fn spec_alert(s: Screen) -> Screen {
    sent(s, bell_seq())
}

/// Redrawing the line from the cursor.
pub open spec fn spec_refresh(s: Screen) -> Screen {
    sent(s, refresh_seq(s.text, s.cursor))
}

/// The right arrow.
pub open spec fn spec_cursor_right(s: Screen) -> Screen {
    if s.cursor < s.text.len() {
        sent(Screen { cursor: s.cursor + 1, ..s }, seq!['\x1B', '[', 'C'])
    } else {
        spec_alert(s)
    }
}

/// The left arrow.
pub open spec fn spec_cursor_left(s: Screen) -> Screen {
    if s.cursor > 0 {
        sent(Screen { cursor: (s.cursor - 1) as nat, ..s }, seq!['\x1B', '[', 'D'])
    } else {
        spec_alert(s)
    }
}

/// Home: to column 3, just after the prompt.
pub open spec fn spec_cursor_home(s: Screen) -> Screen {
    if s.cursor != 0 {
        sent(Screen { cursor: 0, ..s }, seq!['\x1B', '[', '3', 'G'])
    } else {
        spec_alert(s)
    }
}

/// End: to the column after the prompt and the text.
pub open spec fn spec_cursor_end(s: Screen) -> Screen {
    if s.cursor != s.text.len() {
        sent(
            Screen { cursor: s.text.len(), ..s },
            seq!['\x1B', '['] + decimal(3 + s.text.len()) + seq!['G'],
        )
    } else {
        spec_alert(s)
    }
}

/// Backspace: remove the character before the cursor and redraw, or ring the bell at
/// the start of the line.
pub open spec fn spec_backspace(s: Screen) -> Screen {
    if s.cursor > 0 {
        let t = Screen { text: s.text.remove(s.cursor - 1), cursor: (s.cursor - 1) as nat, ..s };
        spec_refresh(sent(t, seq!['\x08']))
    } else {
        spec_alert(s)
    }
}

/// Delete: remove the character under the cursor and redraw, or ring the bell at the
/// end of the line.
pub open spec fn spec_delete(s: Screen) -> Screen {
    if s.cursor < s.text.len() {
        spec_refresh(Screen { text: s.text.remove(s.cursor as int), ..s })
    } else {
        spec_alert(s)
    }
}

/// Typing a printable character: echo it, put it in the line (over the character
/// under the cursor in overwrite mode), and redraw the rest of the line when a
/// character was inserted before its end.
pub open spec fn spec_type(s: Screen, ch: char) -> Screen {
    let replaced = s.overwrite && s.cursor < s.text.len();
    let text = if replaced {
        s.text.update(s.cursor as int, ch)
    } else {
        s.text.insert(s.cursor as int, ch)
    };
    let t = Screen { text, cursor: s.cursor + 1, out: s.out + seq![ch], ..s };
    if !replaced && t.cursor != t.text.len() {
        spec_refresh(t)
    } else {
        t
    }
}

/// The word before the cursor, the one completion works on.
pub open spec fn prefix_word(s: Screen) -> Seq<char> {
    let t = s.text.take(s.cursor as int);
    s.text.subrange(crate::buffer::word_start(t, 0, 0, false) as int, s.cursor as int)
}

/// The words that completion offers: command names for the first word of the line,
/// file names after it.
pub struct Completions {
    pub commands: Trie,
    pub files: Trie,
}

/// The trie that completion searches for the screen `s`.
pub open spec fn completion_source(c: Completions, s: Screen) -> Trie {
    if crate::buffer::in_first_word(s.text.take(s.cursor as int)) {
        c.commands
    } else {
        c.files
    }
}

/// Tab: complete the word before the cursor from `root`. Nothing found rings the
/// bell. Where completion stops at a stored word, the rest of that word is typed; then
/// the line is redrawn when text follows the cursor, or a blank is typed when no
/// longer word exists. The bell rings, and the node's words are offered for listing,
/// unless the completed word is the only candidate.
pub open spec fn spec_complete(s: Screen, root: Trie) -> (Screen, Option<Trie>) {
    let pw = prefix_word(s);
    match root.node_at(encode_utf8(pw)) {
        None => (spec_alert(s), None),
        Some(n) => {
            let m = n.descend();
            match m.stored() {
                Some(w) => {
                    let extra = w.skip(pw.len() as int);
                    let s1 = Screen {
                        text: s.text.take(s.cursor as int) + extra + s.text.skip(s.cursor as int),
                        cursor: s.cursor + extra.len(),
                        out: s.out + extra,
                        ..s
                    };
                    let s2 = if s1.cursor != s1.text.len() {
                        spec_refresh(s1)
                    } else if m.child_count() == 0 {
                        Screen {
                            text: s1.text.insert(s1.cursor as int, ' '),
                            cursor: s1.cursor + 1,
                            out: s1.out + seq![' '],
                            ..s1
                        }
                    } else {
                        s1
                    };
                    if m.child_count() == 0 {
                        (s2, None)
                    } else {
                        (spec_alert(s2), Some(m))
                    }
                },
                None => (spec_alert(s), Some(m)),
            }
        },
    }
}

/// `s` left-aligned in a field of `width` characters.
pub open spec fn pad(s: Seq<char>, width: nat) -> Seq<char> {
    if s.len() < width {
        s + Seq::new((width - s.len()) as nat, |i: int| ' ')
    } else {
        s
    }
}

/// The largest UTF-8 length among `items`.
pub open spec fn max_bytes(items: Seq<Seq<char>>) -> nat
    decreases items.len(),
{
    if items.len() == 0 {
        0
    } else {
        let rest = max_bytes(items.drop_last());
        let here = encode_utf8(items.last()).len();
        if here > rest {
            here
        } else {
            rest
        }
    }
}

/// `items` in fields of `width`, a new line starting before a field that would reach
/// column 80; `sum` is the width of the current line so far.
pub open spec fn rows(items: Seq<Seq<char>>, width: nat, sum: nat) -> Seq<char>
    decreases items.len(),
{
    if items.len() == 0 {
        Seq::empty()
    } else {
        let wrap = sum + width >= 80;
        let start = if wrap {
            seq!['\n']
        } else {
            Seq::empty()
        };
        let used = if wrap {
            0
        } else {
            sum
        };
        start + pad(items[0], width) + rows(items.drop_first(), width, used + width)
    }
}

/// A padded field begins with its item and is filled with blanks up to `width`
/// characters; an item at least that wide is left whole.
pub proof fn lemma_pad_fills_the_field(x: Seq<char>, width: nat)
    ensures
        pad(x, width).len() == if x.len() < width {
            width
        } else {
            x.len()
        },
        pad(x, width).take(x.len() as int) == x,
        forall|i: int| x.len() <= i < pad(x, width).len() ==> #[trigger] pad(x, width)[i] == ' ',
{
    assert(pad(x, width).take(x.len() as int) =~= x);
}

/// The widest item, in UTF-8 bytes: no item is wider, and some item is that wide when
/// there is one.
pub proof fn lemma_max_bytes_is_the_widest(items: Seq<Seq<char>>)
    ensures
        forall|i: int| 0 <= i < items.len() ==> encode_utf8(#[trigger] items[i]).len() <= max_bytes(items),
        items.len() > 0 ==> exists|i: int| 0 <= i < items.len() && encode_utf8(#[trigger] items[i]).len()
            == max_bytes(items),
        items.len() == 0 ==> max_bytes(items) == 0,
    decreases items.len(),
{
    if items.len() > 0 {
        let p = items.drop_last();
        lemma_max_bytes_is_the_widest(p);
        let n = items.len() as int;
        assert forall|i: int| 0 <= i < n implies encode_utf8(#[trigger] items[i]).len() <= max_bytes(items) by {
            if i < n - 1 {
                assert(items[i] == p[i]);
            }
        }
        if encode_utf8(items.last()).len() > max_bytes(p) {
            assert(encode_utf8(items[n - 1]).len() == max_bytes(items));
        } else if n > 1 {
            let i = choose|i: int| 0 <= i < p.len() && encode_utf8(#[trigger] p[i]).len() == max_bytes(p);
            assert(items[i] == p[i]);
        } else {
            assert(max_bytes(p) == 0);
            assert(encode_utf8(items[0]).len() >= 0);
            assert(encode_utf8(items[n - 1]).len() == max_bytes(items));
        }
    }
}

/// How many fields of `width` columns fit on a line while staying below column 80.
pub open spec fn fields_per_row(width: nat) -> nat {
    (79int / width as int) as nat
}

/// Item `x`, number `t` of a listing in fields of `width`: padded to its field, with a
/// line break first when it begins a new row, every `fields_per_row(width)` items.
pub open spec fn grid_cell(x: Seq<char>, width: nat, t: int) -> Seq<char> {
    let k = fields_per_row(width);
    (if t > 0 && t % (k as int) == 0 {
        seq!['\n']
    } else {
        Seq::empty()
    }) + pad(x, width)
}

proof fn lemma_fields_per_row(width: nat)
    requires
        1 <= width < 80,
    ensures
        fields_per_row(width) >= 1,
        fields_per_row(width) * width < 80,
        (fields_per_row(width) + 1) * width >= 80,
{
    let k = fields_per_row(width) as int;
    let w = width as int;
    assert(k == 79int / w);
    assert(k >= 1 && k * w <= 79 && (k + 1) * w > 79) by (nonlinear_arith)
        requires
            1 <= w < 80,
            k == 79int / w,
    ;
}

proof fn lemma_grid_cell_shift(x: Seq<char>, width: nat, t: int)
    requires
        1 <= width < 80,
        t >= 1,
    ensures
        grid_cell(x, width, t + fields_per_row(width)) == grid_cell(x, width, t),
{
    lemma_fields_per_row(width);
    let k = fields_per_row(width) as int;
    assert((t + k) % k == t % k) by (nonlinear_arith)
        requires
            k >= 1,
            t >= 1,
    ;
}

proof fn lemma_flatten_cons(f: Seq<Seq<char>>)
    requires
        f.len() > 0,
    ensures
        f.flatten() == f[0] + f.drop_first().flatten(),
{
}

proof fn lemma_rows_from(items: Seq<Seq<char>>, width: nat, j: nat)
    requires
        1 <= width < 80,
        j <= fields_per_row(width),
    ensures
        rows(items, width, j * width) == Seq::new(
            items.len(),
            |i: int| grid_cell(items[i], width, i + j),
        ).flatten(),
    decreases items.len(),
{
    lemma_fields_per_row(width);
    let k = fields_per_row(width);
    let n = items.len();
    let f = Seq::new(n, |i: int| grid_cell(items[i], width, i + j));
    if n == 0 {
        assert(f =~= Seq::<Seq<char>>::empty());
    } else {
        let rest = items.drop_first();
        lemma_flatten_cons(f);
        if j == k {
            assert(j * width + width >= 80) by (nonlinear_arith)
                requires
                    j == k,
                    (k + 1) * width >= 80,
            ;
            assert(grid_cell(items[0], width, j as int) == seq!['\n'] + pad(items[0], width)) by {
                assert((k as int) % (k as int) == 0) by (nonlinear_arith)
                    requires
                        k >= 1,
                ;
            }
            lemma_rows_from(rest, width, 1);
            assert(1 * width == width);
            let g = Seq::new((n - 1) as nat, |i: int| grid_cell(rest[i], width, i + 1));
            assert(f.drop_first() =~= g) by {
                assert forall|i: int| 0 <= i < n - 1 implies f.drop_first()[i] == g[i] by {
                    assert(rest[i] == items[i + 1]);
                    lemma_grid_cell_shift(rest[i], width, i + 1);
                }
            }
        } else {
            assert(j * width + width < 80) by (nonlinear_arith)
                requires
                    j < k,
                    k * width < 80,
            ;
            if j > 0 {
                assert((j as int) % (k as int) == j) by (nonlinear_arith)
                    requires
                        0 < j < k,
                ;
            }
            assert(grid_cell(items[0], width, j as int) == Seq::<char>::empty() + pad(items[0], width));
            lemma_rows_from(rest, width, j + 1);
            assert(j * width + width == (j + 1) * width) by (nonlinear_arith);
            let g = Seq::new((n - 1) as nat, |i: int| grid_cell(rest[i], width, i + (j + 1)));
            assert(f.drop_first() =~= g) by {
                assert forall|i: int| 0 <= i < n - 1 implies f.drop_first()[i] == g[i] by {
                    assert(rest[i] == items[i + 1]);
                }
            }
        }
    }
}

/// The listing of completion candidates, for a field width below 80, is a grid: each
/// item padded to its field, `fields_per_row(width)` fields to a row, a line break
/// before every item that begins a row and nowhere else. A row is then the widest that
/// stays below column 80: one more field would reach it.
pub proof fn lemma_rows_in_a_grid(items: Seq<Seq<char>>, width: nat)
    requires
        1 <= width < 80,
    ensures
        rows(items, width, 0) == Seq::new(items.len(), |i: int| grid_cell(items[i], width, i)).flatten(),
        fields_per_row(width) >= 1,
        fields_per_row(width) * width < 80,
        (fields_per_row(width) + 1) * width >= 80,
{
    lemma_fields_per_row(width);
    lemma_rows_from(items, width, 0);
    assert(0 * width == 0);
    assert(Seq::new(items.len(), |i: int| grid_cell(items[i], width, i + 0)) =~= Seq::new(
        items.len(),
        |i: int| grid_cell(items[i], width, i),
    ));
}

/// Listing the candidates `items` below the line, then redrawing the prompt and the
/// line `text` with the cursor where it was.
pub open spec fn listing_seq(items: Seq<Seq<char>>, text: Seq<char>) -> Seq<char> {
    save_cursor_seq() + seq!['\n'] + rows(items, 2 + max_bytes(items), 0) + seq!['\n']
        + erase_line_seq() + seq!['$', ' '] + text + restore_cursor_seq()
}

/// Tab at the end of the line, when a single word of `root` begins with the word
/// before the cursor: the rest of that word and a blank are typed and echoed.
pub proof fn lemma_tab_completes_unique(s: Screen, root: Trie, k: Seq<u8>)
    requires
        root.wf(),
        s.cursor == s.text.len(),
        root@.contains_key(k),
        encode_utf8(prefix_word(s)).is_prefix_of(k),
        forall|k2: Seq<u8>| #[trigger]
            root@.contains_key(k2) && encode_utf8(prefix_word(s)).is_prefix_of(k2) ==> k2 == k,
    ensures
        ({
            let extra = root@[k].skip(prefix_word(s).len() as int);
            spec_complete(s, root) == (
                Screen {
                    text: s.text + extra + seq![' '],
                    cursor: s.text.len() + extra.len() + 1,
                    overwrite: s.overwrite,
                    out: s.out + extra + seq![' '],
                },
                None::<Trie>,
            )
        }),
{
    let pw = prefix_word(s);
    root.lemma_complete_unique(pw, k);
    let extra = root@[k].skip(pw.len() as int);
    let t1 = s.text.take(s.cursor as int) + extra + s.text.skip(s.cursor as int);
    assert(t1 =~= s.text + extra);
    assert(t1.insert(t1.len() as int, ' ') =~= s.text + extra + seq![' ']);
    assert(s.out + extra + seq![' '] =~= (s.out + extra) + seq![' ']);
}

/// Tab at the end of the line, where the stored word `w` begins with the word before
/// the cursor and begins every stored word that does, and some longer stored word
/// begins with `w`: the rest of `w` is typed and echoed with no blank after it, the
/// bell rings, and the candidates are offered for listing.
pub proof fn lemma_tab_stops_before_a_longer_word(s: Screen, root: Trie, w: Seq<char>, k2: Seq<u8>)
    requires
        root.wf(),
        s.cursor == s.text.len(),
        root@.contains_key(encode_utf8(w)),
        root@[encode_utf8(w)] == w,
        prefix_word(s).is_prefix_of(w),
        forall|k: Seq<u8>| #[trigger]
            root@.contains_key(k) && encode_utf8(prefix_word(s)).is_prefix_of(k) ==> encode_utf8(
                w,
            ).is_prefix_of(k),
        root@.contains_key(k2),
        encode_utf8(w).is_prefix_of(k2),
        k2 != encode_utf8(w),
    ensures
        ({
            let extra = w.skip(prefix_word(s).len() as int);
            let (s2, m) = spec_complete(s, root);
            &&& s2.text == s.text + extra
            &&& s2.cursor == s.text.len() + extra.len()
            &&& s2.out == s.out + extra + seq!['\x07']
            &&& s2.overwrite == s.overwrite
            &&& m is Some
        }),
{
    let pw = prefix_word(s);
    let b = encode_utf8(pw);
    let ew = encode_utf8(w);
    crate::trie::lemma_prefix_iff_encoding_prefix(pw, w);
    root.lemma_view_keys_are_encodings();
    root.lemma_complete_minimal_none(pw);
    assert(root.node_at(b) is Some);
    let m = root.node_at(b)->0.descend();
    let vs = m.values();
    root.lemma_complete_minimal_candidates(pw, w);
    assert(vs.contains(w));
    assert forall|i: int| 0 <= i < vs.len() implies w.is_prefix_of(#[trigger] vs[i]) by {
        root.lemma_complete_minimal_candidates(pw, vs[i]);
        assert(vs.contains(vs[i]));
        let k = choose|k: Seq<u8>| #[trigger]
            root@.contains_key(k) && b.is_prefix_of(k) && root@[k] == vs[i];
        assert(encode_utf8(vs[i]) == k);
        crate::trie::lemma_prefix_iff_encoding_prefix(w, vs[i]);
    }
    root.lemma_complete_minimal_common_prefix(pw);
    assert(m.stored() is Some);
    let w2 = m.stored()->0;
    let i2 = choose|i: int| 0 <= i < vs.len() && vs[i] == w;
    assert(w2.is_prefix_of(vs[i2]));
    let j2 = choose|i: int| 0 <= i < vs.len() && vs[i] == w2;
    assert(w.is_prefix_of(vs[j2]));
    assert(w2 =~= w);
    let p = root.lemma_completion_node_wf(pw);
    m.lemma_stored_spells_path(p);
    assert(p == ew);
    root.lemma_complete_stored_word(w);
    assert(m.child_count() != 0);
    let extra = w.skip(pw.len() as int);
    let t1 = s.text.take(s.cursor as int) + extra + s.text.skip(s.cursor as int);
    assert(t1 =~= s.text + extra);
}

/// Tab where no stored word that begins with the word before the cursor begins all the
/// others (none at all included): the line is left as it is and the bell rings.
pub proof fn lemma_tab_without_a_common_word(s: Screen, root: Trie)
    requires
        root.wf(),
        forall|k: Seq<u8>| #[trigger]
            root@.contains_key(k) && encode_utf8(prefix_word(s)).is_prefix_of(k) ==> exists|
                k2: Seq<u8>,
            | #[trigger] root@.contains_key(k2) && encode_utf8(prefix_word(s)).is_prefix_of(k2)
                && !root@[k].is_prefix_of(root@[k2]),
    ensures
        spec_complete(s, root).0 == spec_alert(s),
{
    let pw = prefix_word(s);
    let b = encode_utf8(pw);
    if root.node_at(b) is Some {
        let m = root.node_at(b)->0.descend();
        let vs = m.values();
        root.lemma_complete_minimal_common_prefix(pw);
        if m.stored() is Some {
            let w = m.stored()->0;
            root.lemma_complete_minimal_candidates(pw, w);
            let k = choose|k: Seq<u8>| #[trigger] root@.contains_key(k) && b.is_prefix_of(k) && root@[k] == w;
            let k2 = choose|k2: Seq<u8>| #[trigger] root@.contains_key(k2) && b.is_prefix_of(k2)
                && !root@[k].is_prefix_of(root@[k2]);
            let y = root@[k2];
            root.lemma_complete_minimal_candidates(pw, y);
            assert(vs.contains(y));
            let i = choose|i: int| 0 <= i < vs.len() && vs[i] == y;
            assert(w.is_prefix_of(vs[i]));
            assert(false);
        }
    }
}

/// The line and output of a well-formed editor.
pub open spec fn screen_wf(s: Screen) -> bool {
    s.cursor <= s.text.len()
}

/// The line being edited, and the output not yet written to the terminal.
pub struct Terminal {
    buf: Buffer,
    out: String,
}

impl Terminal {
    /// The editor's state.
    pub closed spec fn screen(&self) -> Screen {
        Screen {
            text: self.buf.text(),
            cursor: self.buf.cursor(),
            overwrite: self.buf.overwrite(),
            out: self.out@,
        }
    }

    /// An empty line with no pending output.
    pub fn new() -> (t: Terminal)
        ensures
            t.screen() == (Screen {
                text: Seq::empty(),
                cursor: 0,
                overwrite: false,
                out: Seq::empty(),
            }),
    {
        Terminal { buf: Buffer::new(), out: String::new() }
    }

    /// Hands over the pending output, leaving none.
    pub fn take_output(&mut self) -> (s: String)
        ensures
            s@ == old(self).screen().out,
            final(self).screen() == (Screen { out: Seq::empty(), ..old(self).screen() }),
    {
        let mut s = String::new();
        std::mem::swap(&mut s, &mut self.out);
        s
    }

    fn emit(&mut self, c: char)
        ensures
            final(self).screen() == sent(old(self).screen(), seq![c]),
            final(self).buf == old(self).buf,
    {
        push_char(&mut self.out, c);
        proof {
            assert(self.out@ =~= old(self).out@ + seq![c]);
        }
    }

    fn emit_str(&mut self, s: &String)
        ensures
            final(self).screen() == sent(old(self).screen(), s@),
            final(self).buf == old(self).buf,
    {
        let cs = chars_of(s.as_str());
        let mut i: usize = 0;
        while i < cs.len()
            invariant
                i <= cs@.len(),
                cs@ == s@,
                self.screen() == sent(old(self).screen(), cs@.take(i as int)),
                self.buf == old(self).buf,
            decreases cs@.len() - i,
        {
            self.emit(cs[i]);
            proof {
                assert(cs@.take(i + 1) =~= cs@.take(i as int).push(cs@[i as int]));
                assert(old(self).screen().out + cs@.take(i + 1) =~= old(self).screen().out + cs@.take(i as int) + seq![cs@[i as int]]);
            }
            i = i + 1;
        }
        proof {
            assert(cs@.take(i as int) =~= s@);
        }
    }

    /// Appends the decimal digits of `n`.
    fn emit_decimal(&mut self, n: u128)
        ensures
            final(self).screen() == sent(old(self).screen(), decimal(n as nat)),
            final(self).buf == old(self).buf,
        decreases n,
    {
        if n >= 10 {
            self.emit_decimal(n / 10);
        }
        let d = n % 10;
        let c = if d == 0 {
            '0'
        } else if d == 1 {
            '1'
        } else if d == 2 {
            '2'
        } else if d == 3 {
            '3'
        } else if d == 4 {
            '4'
        } else if d == 5 {
            '5'
        } else if d == 6 {
            '6'
        } else if d == 7 {
            '7'
        } else if d == 8 {
            '8'
        } else {
            '9'
        };
        self.emit(c);
        proof {
            if n < 10 {
                assert(n % 10 == n);
            } else {
                assert(old(self).screen().out + decimal(n as nat) =~= old(self).screen().out
                    + decimal((n / 10) as nat) + seq![c]);
            }
        }
    }

    /// Writes the prompt.
    pub fn begin_prompt(&mut self)
        ensures
            final(self).screen() == sent(old(self).screen(), seq!['$', ' ']),
    {
        self.emit('$');
        self.emit(' ');
        proof {
            assert(old(self).screen().out + seq!['$', ' '] =~= old(self).screen().out + seq!['$']
                + seq![' ']);
        }
    }

    /// Redraws the line from the cursor to its end, leaving the cursor in place.
    pub fn refresh(&mut self)
        requires
            screen_wf(old(self).screen()),
        ensures
            final(self).screen() == spec_refresh(old(self).screen()),
    {
        let ghost s0 = self.screen();
        self.emit('\x1B');
        self.emit('7');
        self.emit('\x1B');
        self.emit('[');
        self.emit('K');
        let rest = self.buf.after_cursor();
        self.emit_str(&rest);
        self.emit('\x1B');
        self.emit('8');
        proof {
            assert(self.screen().out =~= s0.out + refresh_seq(s0.text, s0.cursor));
        }
    }

    /// Rings the bell.
    pub fn alert(&mut self)
        ensures
            final(self).screen() == spec_alert(old(self).screen()),
    {
        self.emit('\x07');
    }

    /// The right arrow.
    pub fn cursor_right(&mut self)
        requires
            screen_wf(old(self).screen()),
        ensures
            screen_wf(final(self).screen()),
            final(self).screen() == spec_cursor_right(old(self).screen()),
    {
        let ghost s0 = self.screen();
        if self.buf.cursor_incr() {
            self.emit('\x1B');
            self.emit('[');
            self.emit('C');
            proof {
                assert(self.screen().out =~= s0.out + seq!['\x1B', '[', 'C']);
            }
        } else {
            self.alert();
        }
    }

    /// The left arrow.
    pub fn cursor_left(&mut self)
        requires
            screen_wf(old(self).screen()),
        ensures
            screen_wf(final(self).screen()),
            final(self).screen() == spec_cursor_left(old(self).screen()),
    {
        let ghost s0 = self.screen();
        if self.buf.cursor_decr() {
            self.emit('\x1B');
            self.emit('[');
            self.emit('D');
            proof {
                assert(self.screen().out =~= s0.out + seq!['\x1B', '[', 'D']);
            }
        } else {
            self.alert();
        }
    }

    /// Home.
    pub fn cursor_home(&mut self)
        requires
            screen_wf(old(self).screen()),
        ensures
            screen_wf(final(self).screen()),
            final(self).screen() == spec_cursor_home(old(self).screen()),
    {
        let ghost s0 = self.screen();
        if self.buf.cursor_to_start() {
            self.emit('\x1B');
            self.emit('[');
            self.emit('3');
            self.emit('G');
            proof {
                assert(self.screen().out =~= s0.out + seq!['\x1B', '[', '3', 'G']);
            }
        } else {
            self.alert();
        }
    }

    /// End.
    pub fn cursor_end(&mut self)
        requires
            screen_wf(old(self).screen()),
        ensures
            screen_wf(final(self).screen()),
            final(self).screen() == spec_cursor_end(old(self).screen()),
    {
        let ghost s0 = self.screen();
        if self.buf.cursor_to_end() {
            let n = self.buf.len();
            let col: u128 = 3 + n as u128;
            self.emit('\x1B');
            self.emit('[');
            self.emit_decimal(col);
            self.emit('G');
            proof {
                assert(self.screen().out =~= s0.out + (seq!['\x1B', '['] + decimal(
                    3 + s0.text.len(),
                ) + seq!['G']));
            }
        } else {
            self.alert();
        }
    }

    /// Backspace.
    pub fn backspace(&mut self)
        requires
            screen_wf(old(self).screen()),
        ensures
            screen_wf(final(self).screen()),
            final(self).screen() == spec_backspace(old(self).screen()),
    {
        if self.buf.cursor_decr() && self.buf.delete() {
            self.emit('\x08');
            self.refresh();
        } else {
            self.alert();
        }
    }

    /// Delete.
    pub fn delete(&mut self)
        requires
            screen_wf(old(self).screen()),
        ensures
            screen_wf(final(self).screen()),
            final(self).screen() == spec_delete(old(self).screen()),
    {
        if self.buf.delete() {
            self.refresh();
        } else {
            self.alert();
        }
    }

    /// Insert: switch between inserting and overwriting.
    pub fn toggle_insert_mode(&mut self)
        requires
            screen_wf(old(self).screen()),
        ensures
            screen_wf(final(self).screen()),
            final(self).screen() == (Screen {
                overwrite: !old(self).screen().overwrite,
                ..old(self).screen()
            }),
    {
        self.buf.toggle_insert_mode();
    }

    /// Typing a printable character.
    pub fn type_char(&mut self, ch: char)
        requires
            screen_wf(old(self).screen()),
        ensures
            screen_wf(final(self).screen()),
            final(self).screen() == spec_type(old(self).screen(), ch),
    {
        self.emit(ch);
        if self.buf.insert(ch) && !self.buf.is_cursor_at_end() {
            self.refresh();
        }
    }

    /// EOT: echoed, which may place the terminal on standby.
    pub fn send_eot(&mut self)
        ensures
            final(self).screen() == sent(old(self).screen(), seq!['\x04']),
    {
        self.emit('\x04');
    }

    /// Enter: end the line, hand over its text and start an empty one.
    pub fn submit(&mut self) -> (line: String)
        requires
            screen_wf(old(self).screen()),
        ensures
            line@ == old(self).screen().text,
            final(self).screen() == (Screen {
                text: Seq::empty(),
                cursor: 0,
                out: old(self).screen().out + seq!['\n'],
                ..old(self).screen()
            }),
    {
        self.emit('\n');
        let ret = self.buf.to_string();
        self.buf.clear();
        ret
    }
}

impl Terminal {
    /// Tab: completes the word before the cursor; returns the node whose words may
    /// be listed next.
    pub fn complete<'a>(&mut self, completions: &'a Completions) -> (r: Option<&'a Trie>)
        requires
            screen_wf(old(self).screen()),
            completions.commands.wf(),
            completions.files.wf(),
        ensures
            screen_wf(final(self).screen()),
            ({
                let (s, m) = spec_complete(old(self).screen(), completion_source(*completions, old(self).screen()));
                &&& final(self).screen() == s
                &&& (r is Some <==> m is Some)
                &&& (r matches Some(x) ==> Some(*x) == m)
            }),
    {
        let ghost s0 = self.screen();
        let prefix = self.buf.get_cursor_prefix_word();
        let root = if self.buf.is_cursor_in_first_word() {
            &completions.commands
        } else {
            &completions.files
        };
        proof {
            assert(prefix@ == prefix_word(s0));
        }
        match root.complete_minimal(prefix.as_str()) {
            None => {
                self.alert();
                None
            },
            Some(min) => {
                if let Some(s) = min.value() {
                    proof {
                        root.lemma_completion_extends(prefix@);
                    }
                    let pc = chars_of(prefix.as_str());
                    let sc = chars_of(s);
                    let extra = string_of(&sc, pc.len(), sc.len());
                    self.buf.insert_str(extra.as_str());
                    self.emit_str(&extra);
                    if !self.buf.is_cursor_at_end() {
                        self.refresh();
                    } else if min.is_leaf() {
                        self.buf.insert(' ');
                        self.emit(' ');
                    }
                    if min.is_leaf() {
                        return None;
                    }
                }
                self.alert();
                Some(min)
            },
        }
    }

    /// Lists the completion candidates `comp` below the line and redraws the prompt
    /// and the line, the cursor staying where it was.
    pub fn list_completions(&mut self, comp: &Vec<&str>)
        requires
            comp@.len() > 0,
        ensures
            final(self).screen() == sent(
                old(self).screen(),
                listing_seq(comp@.map_values(|s: &str| s@), old(self).screen().text),
            ),
    {
        let ghost items = comp@.map_values(|s: &str| s@);
        let ghost s0 = self.screen();
        // The widest candidate, in bytes.
        let mut widest: usize = 0;
        let mut i: usize = 0;
        while i < comp.len()
            invariant
                i <= comp@.len(),
                items == comp@.map_values(|s: &str| s@),
                widest == max_bytes(items.take(i as int)),
            decreases comp@.len() - i,
        {
            let n = comp[i].as_bytes().len();
            proof {
                assert(n == encode_utf8(comp@[i as int]@).len());
                assert(items.take(i + 1).drop_last() =~= items.take(i as int));
                assert(items.take(i + 1).last() == comp@[i as int]@);
            }
            if n > widest {
                widest = n;
            }
            i = i + 1;
        }
        proof {
            assert(items.take(i as int) =~= items);
        }
        let width: u128 = 2 + widest as u128;
        self.emit('\x1B');
        self.emit('7');
        self.emit('\n');
        let mut sum: u128 = 0;
        let mut j: usize = 0;
        let ghost out0 = self.screen().out;
        while j < comp.len()
            invariant
                j <= comp@.len(),
                items == comp@.map_values(|s: &str| s@),
                width == 2 + max_bytes(items),
                sum == width || sum < 80,
                width <= usize::MAX + 2,
                self.screen().out + rows(items.skip(j as int), width as nat, sum as nat) == out0
                    + rows(items, width as nat, 0),
                self.buf == old(self).buf,
            decreases comp@.len() - j,
        {
            let ghost before = self.screen().out;
            let ghost sum0 = sum;
            proof {
                assert(items.skip(j as int)[0] == items[j as int]);
                assert(items.skip(j as int).drop_first() =~= items.skip(j + 1));
            }
            if sum + width >= 80 {
                self.emit('\n');
                sum = 0;
            }
            self.emit_padded(comp[j], width);
            sum = sum + width;
            proof {
                assert(before + rows(items.skip(j as int), width as nat, sum0 as nat) =~= self.screen().out
                    + rows(items.skip(j + 1), width as nat, sum as nat));
            }
            j = j + 1;
        }
        proof {
            assert(items.skip(j as int) =~= Seq::<Seq<char>>::empty());
            assert(self.screen().out == out0 + rows(items, width as nat, 0));
        }
        self.emit('\n');
        self.emit('\x1B');
        self.emit('[');
        self.emit('K');
        self.emit('$');
        self.emit(' ');
        let text = self.buf.to_string();
        self.emit_str(&text);
        self.emit('\x1B');
        self.emit('8');
        proof {
            assert(self.screen().out =~= s0.out + listing_seq(items, s0.text));
        }
    }

    /// Writes `s` left-aligned in a field of `width` characters.
    fn emit_padded(&mut self, s: &str, width: u128)
        ensures
            final(self).screen() == sent(old(self).screen(), pad(s@, width as nat)),
            final(self).buf == old(self).buf,
    {
        let cs = chars_of(s);
        let text = string_of(&cs, 0, cs.len());
        proof {
            assert(cs@.subrange(0, cs@.len() as int) =~= s@);
        }
        self.emit_str(&text);
        let mut k: u128 = cs.len() as u128;
        let ghost mid = self.screen().out;
        while k < width
            invariant
                cs@.len() <= k,
                k <= width || k == cs@.len(),
                self.screen().out == mid + Seq::new((k - cs@.len()) as nat, |i: int| ' '),
                self.buf == old(self).buf,
            decreases width - k,
        {
            self.emit(' ');
            proof {
                assert(mid + Seq::new((k + 1 - cs@.len()) as nat, |i: int| ' ') =~= mid + Seq::new(
                    (k - cs@.len()) as nat,
                    |i: int| ' ',
                ) + seq![' ']);
            }
            k = k + 1;
        }
        proof {
            if cs@.len() < width {
                assert(self.screen().out =~= old(self).screen().out + pad(s@, width as nat));
            } else {
                assert(self.screen().out =~= old(self).screen().out + pad(s@, width as nat));
            }
        }
    }
}

} // verus!
