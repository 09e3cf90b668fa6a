//! UTF-16 code units of label text, and the lexicographic order on
//! code-unit sequences that binary search over raw UTF-16BE labels relies on.
use vstd::prelude::*;
use crate::text::chars_of;

verus! {

/// The UTF-16 code units of one character: the scalar value itself below
/// U+10000, otherwise a high/low surrogate pair.
pub open spec fn utf16_units(c: char) -> Seq<u16> {
    let v = c as u32;
    if v < 0x10000 {
        seq![v as u16]
    } else {
        seq![(0xD800 + (v - 0x10000) / 0x400) as u16, (0xDC00 + (v - 0x10000) % 0x400) as u16]
    }
}

/// The UTF-16 encoding of a character sequence.
pub open spec fn utf16_encode(s: Seq<char>) -> Seq<u16>
    decreases s.len(),
{
    if s.len() == 0 {
        Seq::empty()
    } else {
        utf16_units(s[0]) + utf16_encode(s.skip(1))
    }
}

/// Lexicographic comparison of code-unit sequences, as -1, 0 or 1: the
/// first differing unit decides, and a proper prefix comes first.
pub open spec fn lex_sign(a: Seq<u16>, b: Seq<u16>) -> int
    decreases a.len(),
{
    if a.len() == 0 {
        if b.len() == 0 {
            0
        } else {
            -1
        }
    } else if b.len() == 0 {
        1
    } else if a[0] < b[0] {
        -1
    } else if a[0] > b[0] {
        1
    } else {
        lex_sign(a.skip(1), b.skip(1))
    }
}

/// Order of two labels by their raw UTF-16 code units, as -1, 0 or 1.
pub open spec fn label_sign(a: Seq<char>, b: Seq<char>) -> int {
    lex_sign(utf16_encode(a), utf16_encode(b))
}

proof fn lemma_encode_push(s: Seq<char>, c: char)
    ensures
        utf16_encode(s.push(c)) == utf16_encode(s) + utf16_units(c),
    decreases s.len(),
{
    if s.len() == 0 {
        assert(s.push(c).skip(1) =~= Seq::<char>::empty());
        assert(utf16_encode(s.push(c).skip(1)) == Seq::<u16>::empty());
        assert(utf16_encode(s.push(c)) =~= utf16_units(c) + Seq::<u16>::empty());
    } else {
        lemma_encode_push(s.skip(1), c);
        assert(s.push(c).skip(1) =~= s.skip(1).push(c));
        assert(utf16_encode(s.push(c)) =~= utf16_units(s[0]) + (utf16_encode(s.skip(1))
            + utf16_units(c)));
    }
}

/// The UTF-16 code units of `s`, in order.
pub fn utf16be_bytes(s: &str) -> (units: Vec<u16>)
    ensures
        units@ == utf16_encode(s@),
{
    let chars = chars_of(s);
    let n = chars.len();
    let mut units: Vec<u16> = Vec::new();
    let mut i: usize = 0;
    while i < n
        invariant
            n == chars@.len(),
            chars@ == s@,
            i <= n,
            units@ == utf16_encode(chars@.take(i as int)),
        decreases n - i,
    {
        let c = chars[i];
        proof {
            lemma_encode_push(chars@.take(i as int), c);
            assert(chars@.take(i + 1) =~= chars@.take(i as int).push(c));
            vstd::utf8::char_is_scalar(c);
        }
        let ghost before = utf16_encode(chars@.take(i as int));
        let v = c as u32;
        if v < 0x10000 {
            units.push(v as u16);
            assert(units@ =~= before + utf16_units(c));
        } else {
            let w = v - 0x10000;
            units.push((0xD800 + w / 0x400) as u16);
            units.push((0xDC00 + w % 0x400) as u16);
            assert(units@ =~= before + utf16_units(c));
        }
        i = i + 1;
    }
    assert(chars@.take(n as int) =~= chars@);
    units
}

/// Lexicographic comparison of two code-unit vectors, as -1, 0 or 1.
pub fn compare_units(x: &Vec<u16>, y: &Vec<u16>) -> (r: i8)
    ensures
        r as int == lex_sign(x@, y@),
{
    let nx = x.len();
    let ny = y.len();
    let mut i: usize = 0;
    assert(x@.skip(0) =~= x@);
    assert(y@.skip(0) =~= y@);
    while i < nx && i < ny
        invariant
            nx == x@.len(),
            ny == y@.len(),
            i <= nx,
            i <= ny,
            lex_sign(x@, y@) == lex_sign(x@.skip(i as int), y@.skip(i as int)),
        decreases nx - i,
    {
        if x[i] < y[i] {
            return -1;
        } else if x[i] > y[i] {
            return 1;
        }
        assert(x@.skip(i as int).skip(1) =~= x@.skip(i + 1));
        assert(y@.skip(i as int).skip(1) =~= y@.skip(i + 1));
        i = i + 1;
    }
    if i < ny {
        -1
    } else if i < nx {
        1
    } else {
        0
    }
}

/// `lex_sign` is an antisymmetric comparison: every answer is -1, 0 or 1,
/// swapping the arguments negates it, and it is 0 exactly for equal
/// sequences.
pub proof fn lemma_lex_sign_antisymmetric(a: Seq<u16>, b: Seq<u16>)
    ensures
        -1 <= lex_sign(a, b) <= 1,
        lex_sign(b, a) == -lex_sign(a, b),
        lex_sign(a, b) == 0 <==> a == b,
    decreases a.len(),
{
    if a.len() > 0 && b.len() > 0 && a[0] == b[0] {
        lemma_lex_sign_antisymmetric(a.skip(1), b.skip(1));
        if a.skip(1) == b.skip(1) {
            assert(a =~= b) by {
                assert forall|i: int| 0 <= i < a.len() implies a[i] == b[i] by {
                    if i > 0 {
                        assert(a[i] == a.skip(1)[i - 1]);
                        assert(b[i] == b.skip(1)[i - 1]);
                    }
                }
            }
        }
    } else if a.len() == 0 && b.len() == 0 {
        assert(a =~= b);
    }
}

/// `lex_sign` orders transitively: a before b and b before c puts a before c.
pub proof fn lemma_lex_sign_transitive(a: Seq<u16>, b: Seq<u16>, c: Seq<u16>)
    requires
        lex_sign(a, b) < 0,
        lex_sign(b, c) < 0,
    ensures
        lex_sign(a, c) < 0,
    decreases a.len(),
{
    if a.len() > 0 && a[0] == b[0] && b[0] == c[0] {
        lemma_lex_sign_transitive(a.skip(1), b.skip(1), c.skip(1));
    }
}

proof fn lemma_units_shape(c: char)
    ensures
        ({
            let u = utf16_units(c);
            &&& 1 <= u.len() <= 2
            &&& (u.len() == 2) <==> (0xD800 <= u[0] <= 0xDBFF)
            &&& u.len() == 1 ==> u[0] as u32 == c as u32
            &&& u.len() == 2 ==> 0x10000 <= c as u32 <= 0x10FFFF && u[0] as int == 0xD800 + (c
                as u32 - 0x10000) / 0x400 && u[1] as int == 0xDC00 + (c as u32 - 0x10000) % 0x400
        }),
{
    vstd::utf8::char_is_scalar(c);
}

/// Different character sequences have different UTF-16 encodings.
pub proof fn lemma_utf16_injective(a: Seq<char>, b: Seq<char>)
    requires
        utf16_encode(a) == utf16_encode(b),
    ensures
        a == b,
    decreases a.len(),
{
    if a.len() == 0 {
        if b.len() > 0 {
            lemma_units_shape(b[0]);
        }
        assert(b.len() == 0);
        assert(a =~= b);
    } else {
        lemma_units_shape(a[0]);
        if b.len() == 0 {
            assert(utf16_encode(a).len() > 0);
        }
        lemma_units_shape(b[0]);
        let ua = utf16_units(a[0]);
        let ub = utf16_units(b[0]);
        let e = utf16_encode(a);
        assert(e == ua + utf16_encode(a.skip(1)));
        assert(e == ub + utf16_encode(b.skip(1)));
        assert(e[0] == ua[0] && e[0] == ub[0]);
        assert(ua.len() == ub.len());
        assert(ua =~= e.subrange(0, ua.len() as int));
        assert(ub =~= e.subrange(0, ub.len() as int));
        assert(utf16_encode(a.skip(1)) =~= e.skip(ua.len() as int));
        assert(utf16_encode(b.skip(1)) =~= e.skip(ub.len() as int));
        if ua.len() == 2 {
            assert(ua[1] == ub[1]);
        }
        assert(a[0] as u32 == b[0] as u32);
        vstd::utf8::char_u32_cast(a[0], a[0] as u32);
        vstd::utf8::char_u32_cast(b[0], b[0] as u32);
        lemma_utf16_injective(a.skip(1), b.skip(1));
        assert(a =~= b) by {
            assert forall|i: int| 0 <= i < a.len() implies a[i] == b[i] by {
                if i > 0 {
                    assert(a[i] == a.skip(1)[i - 1]);
                    assert(b[i] == b.skip(1)[i - 1]);
                }
            }
        }
    }
}

/// Labels compare equal by their UTF-16 code units exactly when they are the
/// same text, and swapping two labels reverses their order.
pub proof fn lemma_label_sign_equal_iff_same(a: Seq<char>, b: Seq<char>)
    ensures
        label_sign(a, b) == 0 <==> a == b,
        label_sign(b, a) == -label_sign(a, b),
        -1 <= label_sign(a, b) <= 1,
{
    lemma_lex_sign_antisymmetric(utf16_encode(a), utf16_encode(b));
    if utf16_encode(a) == utf16_encode(b) {
        lemma_utf16_injective(a, b);
    }
}

/// Ordering labels by their raw UTF-16 code units is transitive, both
/// strictly and non-strictly.
pub proof fn lemma_label_sign_transitive(a: Seq<char>, b: Seq<char>, c: Seq<char>)
    ensures
        label_sign(a, b) < 0 && label_sign(b, c) < 0 ==> label_sign(a, c) < 0,
        label_sign(a, b) <= 0 && label_sign(b, c) <= 0 ==> label_sign(a, c) <= 0,
{
    let (ea, eb, ec) = (utf16_encode(a), utf16_encode(b), utf16_encode(c));
    lemma_lex_sign_antisymmetric(ea, eb);
    lemma_lex_sign_antisymmetric(eb, ec);
    lemma_lex_sign_antisymmetric(ea, ec);
    if lex_sign(ea, eb) < 0 && lex_sign(eb, ec) < 0 {
        lemma_lex_sign_transitive(ea, eb, ec);
    }
}

} // verus!
