//! Character-level helpers shared by the tokenizer, the line editor and the prompt.
use vstd::prelude::*;
use vstd::utf8::encode_utf8;

verus! {

broadcast use vstd::string::group_string_axioms;

/// `String::push`: appends `c` to `s`. The contract claims that the text of `s` grows
/// by exactly `c` and nothing else changes.
#[verifier::external_body]
pub(crate) fn push_char(s: &mut String, c: char)
    ensures
        final(s)@ == old(s)@.push(c),
{
    s.push(c);
}

/// The characters of `s`, in order.
pub fn chars_of(s: &str) -> (v: Vec<char>)
    ensures
        v@ == s@,
{
    let mut v: Vec<char> = Vec::new();
    for c in iter: s.chars()
        invariant
            iter.seq() == s@,
            v@ == iter.seq().take(iter.index() as int),
    {
        v.push(c);
        proof {
            assert(v@ =~= iter.seq().take(iter.index() as int + 1));
        }
    }
    v
}

/// A string holding the characters `v[from..to]`.
pub fn string_of(v: &Vec<char>, from: usize, to: usize) -> (s: String)
    requires
        from <= to <= v@.len(),
    ensures
        s@ == v@.subrange(from as int, to as int),
{
    let mut s = String::new();
    let mut i = from;
    while i < to
        invariant
            from <= i <= to <= v@.len(),
            s@ == v@.subrange(from as int, i as int),
        decreases to - i,
    {
        push_char(&mut s, v[i]);
        proof {
            assert(v@.subrange(from as int, i + 1) =~= v@.subrange(from as int, i as int).push(v@[i as int]));
        }
        i = i + 1;
    }
    s
}

/// Whether the characters of `s` are those of `t`.
pub(crate) fn chars_eq(s: &Vec<char>, t: &[char]) -> (r: bool)
    ensures
        r == (s@ == t@),
{
    if s.len() != t.len() {
        return false;
    }
    let mut i: usize = 0;
    while i < s.len()
        invariant
            s@.len() == t@.len(),
            i <= s@.len(),
            forall|k: int| 0 <= k < i ==> s@[k] == t@[k],
        decreases s@.len() - i,
    {
        if s[i] != t[i] {
            return false;
        }
        i = i + 1;
    }
    proof {
        assert(s@ =~= t@);
    }
    true
}

/// Appends the characters of `lit` to `s`.
pub(crate) fn push_str(s: &mut String, lit: &str)
    ensures
        final(s)@ == old(s)@ + lit@,
{
    let cs = chars_of(lit);
    let mut i: usize = 0;
    while i < cs.len()
        invariant
            i <= cs@.len(),
            cs@ == lit@,
            s@ == old(s)@ + cs@.take(i as int),
        decreases cs@.len() - i,
    {
        push_char(s, cs[i]);
        proof {
            assert(cs@.take(i + 1) =~= cs@.take(i as int).push(cs@[i as int]));
        }
        i = i + 1;
    }
    proof {
        assert(cs@.take(i as int) =~= lit@);
    }
}

/// When the UTF-8 encoding of `a` begins the UTF-8 encoding of `s`, `a` begins `s`.
pub proof fn lemma_encode_prefix(a: Seq<char>, s: Seq<char>, e: Seq<u8>)
    requires
        encode_utf8(s) == encode_utf8(a) + e,
    ensures
        a.is_prefix_of(s),
    decreases a.len(),
{
    if a.len() == 0 {
        assert(a =~= s.subrange(0, 0));
    } else {
        let x = encode_utf8(s);
        let y = encode_utf8(a);
        vstd::utf8::encode_utf8_first_scalar(a);
        assert(y == vstd::utf8::encode_scalar(a[0] as u32) + encode_utf8(a.drop_first()));
        if s.len() == 0 {
            assert(x.len() == 0);
            assert(false);
        }
        vstd::utf8::encode_utf8_first_scalar(s);
        assert(x == vstd::utf8::encode_scalar(s[0] as u32) + encode_utf8(s.drop_first()));
        let w = vstd::utf8::length_of_first_scalar(y);
        assert(forall|i: int| 0 <= i < y.len() ==> x[i] == y[i]);
        assert(x[0] == y[0]);
        if w >= 2 {
            assert(x[1] == y[1]);
        }
        if w >= 3 {
            assert(x[2] == y[2]);
        }
        if w >= 4 {
            assert(x[3] == y[3]);
        }
        assert(vstd::utf8::decode_first_scalar(x) == vstd::utf8::decode_first_scalar(y));
        let u = s[0] as u32;
        assert(u == a[0] as u32);
        vstd::utf8::char_u32_cast(s[0], u);
        vstd::utf8::char_u32_cast(a[0], u);
        assert(s[0] == a[0]);
        let ra = a.drop_first();
        let rs = s.drop_first();
        let n = vstd::utf8::encode_scalar(a[0] as u32).len();
        assert(encode_utf8(rs) =~= x.subrange(n as int, x.len() as int));
        assert(encode_utf8(rs) =~= encode_utf8(ra) + e);
        lemma_encode_prefix(ra, rs, e);
        assert(ra =~= rs.subrange(0, ra.len() as int));
        assert forall|i: int| 0 <= i < a.len() implies a[i] == s[i] by {
            if i > 0 {
                assert(a[i] == ra[i - 1]);
                assert(s[i] == rs[i - 1]);
            }
        }
        assert(a =~= s.subrange(0, a.len() as int));
    }
}

} // verus!
