//! Character-level text helpers: characters of a string, substring search,
//! quoted strings, decimal numbers and line splitting.
use vstd::prelude::*;

verus! {

/// `String::push`: std documents that it appends the given char to the end
/// of the string; that is all this contract claims.
#[verifier::external_body]
fn push_char(s: &mut String, c: char)
    ensures
        final(s)@ == old(s)@.push(c),
{
    s.push(c);
}

/// The characters of `s`, in order.
pub fn chars_of(s: &str) -> (v: Vec<char>)
    ensures
        v@ == s@,
{
    let mut v: Vec<char> = Vec::new();
    for c in it: s.chars()
        invariant
            v@ == it.seq().take(it.index() as int),
    {
        v.push(c);
    }
    v
}

/// A `String` holding exactly the characters of `v`, in order.
pub fn string_from_chars(v: &Vec<char>) -> (s: String)
    ensures
        s@ == v@,
{
    let mut s = String::new();
    let n = v.len();
    let mut i: usize = 0;
    while i < n
        invariant
            n == v@.len(),
            i <= n,
            s@ == v@.take(i as int),
        decreases n - i,
    {
        push_char(&mut s, v[i]);
        assert(v@.take(i as int).push(v@[i as int]) =~= v@.take(i + 1));
        i = i + 1;
    }
    assert(v@.take(n as int) =~= v@);
    s
}

/// The characters of `v` at positions `[from, to)`.
pub fn sub_chars(v: &Vec<char>, from: usize, to: usize) -> (out: Vec<char>)
    requires
        from <= to <= v@.len(),
    ensures
        out@ == v@.subrange(from as int, to as int),
{
    let mut out: Vec<char> = Vec::new();
    let mut i = from;
    while i < to
        invariant
            from <= i <= to,
            to <= v@.len(),
            out@ == v@.subrange(from as int, i as int),
        decreases to - i,
    {
        out.push(v[i]);
        assert(out@ =~= v@.subrange(from as int, i + 1));
        i = i + 1;
    }
    out
}

/// `m` occurs in `s` starting at position `i`.
pub open spec fn occurs_at(s: Seq<char>, m: Seq<char>, i: int) -> bool {
    0 <= i && i + m.len() <= s.len() && s.subrange(i, i + m.len()) == m
}

/// `i` is the position of the first occurrence of `m` in `s`.
pub open spec fn first_occurrence_at(s: Seq<char>, m: Seq<char>, i: int) -> bool {
    occurs_at(s, m, i) && forall|j: int| 0 <= j < i ==> !occurs_at(s, m, j)
}

/// `s` begins with `p`.
pub open spec fn starts_with(s: Seq<char>, p: Seq<char>) -> bool {
    occurs_at(s, p, 0)
}

/// A first occurrence is unique.
pub proof fn lemma_first_occurrence_unique(s: Seq<char>, m: Seq<char>, i: int, j: int)
    requires
        first_occurrence_at(s, m, i),
        first_occurrence_at(s, m, j),
    ensures
        i == j,
{
}

/// Whether `m` occurs in `s` at position `i`.
pub fn occurs_at_exec(s: &Vec<char>, m: &Vec<char>, i: usize) -> (b: bool)
    ensures
        b == occurs_at(s@, m@, i as int),
{
    let n = s.len();
    let k = m.len();
    if i > n || k > n - i {
        return false;
    }
    let mut j: usize = 0;
    while j < k
        invariant
            n == s@.len(),
            k == m@.len(),
            i + k <= n,
            j <= k,
            forall|q: int| 0 <= q < j ==> s@[i + q] == m@[q],
        decreases k - j,
    {
        if s[i + j] != m[j] {
            assert(s@.subrange(i as int, i + k)[j as int] != m@[j as int]);
            return false;
        }
        j = j + 1;
    }
    assert(s@.subrange(i as int, i + k) =~= m@);
    true
}

/// The position of the first occurrence of `m` in `s`, if any.
pub fn find_chars(s: &Vec<char>, m: &Vec<char>) -> (r: Option<usize>)
    ensures
        match r {
            Some(i) => first_occurrence_at(s@, m@, i as int),
            None => forall|j: int| !occurs_at(s@, m@, j),
        },
{
    let n = s.len();
    let mut i: usize = 0;
    while i < n
        invariant
            n == s@.len(),
            i <= n,
            forall|j: int| 0 <= j < i ==> !occurs_at(s@, m@, j),
        decreases n - i,
    {
        if occurs_at_exec(s, m, i) {
            return Some(i);
        }
        i = i + 1;
    }
    if occurs_at_exec(s, m, n) {
        return Some(n);
    }
    None
}

/// Whether `s` begins with `p`.
pub fn starts_with_exec(s: &Vec<char>, p: &Vec<char>) -> (b: bool)
    ensures
        b == starts_with(s@, p@),
{
    occurs_at_exec(s, p, 0)
}

// ---------------------------------------------------------------------------
// Quoted strings
// ---------------------------------------------------------------------------

/// Reads the body of a double-quoted string that starts right after its
/// opening quote: a backslash takes the next character literally, and the
/// first unescaped quote ends the string. `None` when no closing quote
/// follows (or the text ends right after a backslash).
pub open spec fn unquote(s: Seq<char>) -> Option<Seq<char>>
    decreases s.len(),
{
    if s.len() == 0 {
        None
    } else if s[0] == '\\' {
        if s.len() < 2 {
            None
        } else {
            match unquote(s.skip(2)) {
                Some(r) => Some(seq![s[1]] + r),
                None => None,
            }
        }
    } else if s[0] == '"' {
        Some(Seq::empty())
    } else {
        match unquote(s.skip(1)) {
            Some(r) => Some(seq![s[0]] + r),
            None => None,
        }
    }
}

/// The quoted string that immediately follows the first occurrence of
/// `marker` in `line`; `None` when the marker does not occur, is not
/// followed by a quote, or the quote is not closed.
pub open spec fn quoted_after(line: Seq<char>, marker: Seq<char>) -> Option<Seq<char>> {
    if exists|i: int| first_occurrence_at(line, marker, i) {
        let i = choose|i: int| first_occurrence_at(line, marker, i);
        let rest = line.skip(i + marker.len());
        if rest.len() > 0 && rest[0] == '"' {
            unquote(rest.skip(1))
        } else {
            None
        }
    } else {
        None
    }
}

/// `out` followed by the result of `r`, if there is one.
pub open spec fn prefixed(out: Seq<char>, r: Option<Seq<char>>) -> Option<Seq<char>> {
    match r {
        Some(t) => Some(out + t),
        None => None,
    }
}

fn unquote_exec(body: &Vec<char>) -> (r: Option<String>)
    ensures
        match r {
            Some(t) => unquote(body@) == Some(t@),
            None => unquote(body@) is None,
        },
{
    let n = body.len();
    let mut out: Vec<char> = Vec::new();
    let mut i: usize = 0;
    assert(body@.skip(0) =~= body@);
    proof {
        if unquote(body@) is Some {
            assert(Seq::<char>::empty() + unquote(body@)->0 =~= unquote(body@)->0);
        }
    }
    while i < n
        invariant
            n == body@.len(),
            i <= n,
            unquote(body@) == prefixed(out@, unquote(body@.skip(i as int))),
        decreases n - i,
    {
        let ghost rest = body@.skip(i as int);
        let c = body[i];
        if c == '\\' {
            if i + 1 < n {
                out.push(body[i + 1]);
                assert(rest.skip(2) =~= body@.skip(i + 2));
                assert(seq![rest[1]] + unquote(rest.skip(2))->0 =~= seq![rest[1]] + unquote(
                    rest.skip(2),
                )->0);
                assert(prefixed(out@, unquote(body@.skip(i + 2))) == prefixed(
                    out@.drop_last(),
                    unquote(rest),
                )) by {
                    assert(out@ =~= out@.drop_last() + seq![rest[1]]);
                    if unquote(rest.skip(2)) is Some {
                        assert(out@ + unquote(rest.skip(2))->0 =~= out@.drop_last() + (seq![rest[1]]
                            + unquote(rest.skip(2))->0));
                    }
                }
                i = i + 2;
            } else {
                return None;
            }
        } else if c == '"' {
            assert(out@ + Seq::<char>::empty() =~= out@);
            return Some(string_from_chars(&out));
        } else {
            out.push(c);
            assert(rest.skip(1) =~= body@.skip(i + 1));
            assert(prefixed(out@, unquote(body@.skip(i + 1))) == prefixed(
                out@.drop_last(),
                unquote(rest),
            )) by {
                assert(out@ =~= out@.drop_last() + seq![c]);
                if unquote(rest.skip(1)) is Some {
                    assert(out@ + unquote(rest.skip(1))->0 =~= out@.drop_last() + (seq![c]
                        + unquote(rest.skip(1))->0));
                }
            }
            i = i + 1;
        }
    }
    None
}

/// The quoted string right after the first occurrence of `marker` in
/// `line`, with backslash escapes resolved.
pub fn extract_quoted_after(line: &str, marker: &str) -> (r: Option<String>)
    ensures
        match r {
            Some(t) => quoted_after(line@, marker@) == Some(t@),
            None => quoted_after(line@, marker@) is None,
        },
{
    let chars = chars_of(line);
    let m = chars_of(marker);
    let n = chars.len();
    match find_chars(&chars, &m) {
        None => None,
        Some(idx) => {
            proof {
                let i = choose|i: int| first_occurrence_at(line@, marker@, i);
                lemma_first_occurrence_unique(line@, marker@, i, idx as int);
            }
            let start = idx + m.len();
            if start < n && chars[start] == '"' {
                let body = sub_chars(&chars, start + 1, n);
                assert(body@ =~= chars@.skip(start as int).skip(1));
                unquote_exec(&body)
            } else {
                None
            }
        },
    }
}

// ---------------------------------------------------------------------------
// Decimal numbers
// ---------------------------------------------------------------------------

/// An ASCII decimal digit.
pub open spec fn is_digit(c: char) -> bool {
    '0' <= c && c <= '9'
}

/// The value of a string of decimal digits, most significant first.
pub open spec fn digits_value(ds: Seq<char>) -> int
    decreases ds.len(),
{
    if ds.len() == 0 {
        0
    } else {
        digits_value(ds.drop_last()) * 10 + (ds.last() as int - '0' as int)
    }
}

/// All characters of `ds` are decimal digits.
pub open spec fn all_digits(ds: Seq<char>) -> bool {
    forall|i: int| 0 <= i < ds.len() ==> is_digit(#[trigger] ds[i])
}

/// `s` without one leading `+` sign.
pub open spec fn unsigned_part(s: Seq<char>) -> Seq<char> {
    if s.len() > 0 && s[0] == '+' {
        s.skip(1)
    } else {
        s
    }
}

/// What parsing `s` as a `usize` gives: an optional `+` sign followed by at
/// least one decimal digit, and no more than `usize::MAX`.
pub open spec fn parsed_usize(s: Seq<char>) -> Option<int> {
    let ds = unsigned_part(s);
    if ds.len() > 0 && all_digits(ds) && digits_value(ds) <= usize::MAX {
        Some(digits_value(ds))
    } else {
        None
    }
}

proof fn lemma_digits_prefix(ds: Seq<char>, k: int)
    requires
        0 <= k <= ds.len(),
        all_digits(ds),
    ensures
        0 <= digits_value(ds.take(k)) <= digits_value(ds),
    decreases ds.len(),
{
    if k == ds.len() {
        assert(ds.take(k) =~= ds);
        if ds.len() > 0 {
            lemma_digits_prefix(ds.drop_last(), ds.len() - 1);
            assert(ds.drop_last().take(ds.len() - 1) =~= ds.drop_last());
        }
    } else {
        lemma_digits_prefix(ds.drop_last(), k);
        assert(ds.drop_last().take(k) =~= ds.take(k));
        lemma_digits_prefix(ds.drop_last(), ds.len() - 1);
        assert(ds.drop_last().take(ds.len() - 1) =~= ds.drop_last());
    }
}

/// Parses the characters of `s` as a `usize`, as `str::parse::<usize>` does.
pub fn parse_usize(s: &Vec<char>) -> (r: Option<usize>)
    ensures
        match r {
            Some(v) => parsed_usize(s@) == Some(v as int),
            None => parsed_usize(s@) is None,
        },
{
    let n = s.len();
    let start: usize = if n > 0 && s[0] == '+' {
        1
    } else {
        0
    };
    let ghost ds = unsigned_part(s@);
    assert(ds =~= s@.skip(start as int));
    if start == n {
        return None;
    }
    let mut acc: usize = 0;
    let mut i = start;
    assert(ds.take(0) =~= Seq::<char>::empty());
    while i < n
        invariant
            n == s@.len(),
            start <= i <= n,
            ds == s@.skip(start as int),
            ds == unsigned_part(s@),
            forall|q: int| 0 <= q < i - start ==> is_digit(#[trigger] ds[q]),
            acc as int == digits_value(ds.take(i - start)),
        decreases n - i,
    {
        let c = s[i];
        assert(ds[i - start] == c);
        if !(c >= '0' && c <= '9') {
            assert(!is_digit(ds[i - start]));
            assert(0 <= i - start < ds.len());
            return None;
        }
        let d = (c as u32 - '0' as u32) as usize;
        assert(ds.take(i - start + 1).drop_last() =~= ds.take(i - start));
        if acc > (usize::MAX - d) / 10 {
            proof {
                assert(is_digit(ds[i - start]));
                assert(digits_value(ds.take(i - start + 1)) == acc * 10 + d);
                assert(acc * 10 + d > usize::MAX);
                if all_digits(ds) {
                    lemma_digits_prefix(ds, i - start + 1);
                }
            }
            return None;
        }
        acc = acc * 10 + d;
        i = i + 1;
    }
    assert(ds.take(n - start) =~= ds);
    Some(acc)
}

// ---------------------------------------------------------------------------
// Lines
// ---------------------------------------------------------------------------

/// `t` without one trailing carriage return.
pub open spec fn strip_cr(t: Seq<char>) -> Seq<char> {
    if t.len() > 0 && t.last() == '\r' {
        t.drop_last()
    } else {
        t
    }
}

/// The lines of `s` as `str::lines` yields them: split after each `\n`,
/// with the `\n` (or `\r\n`) removed; a last line without `\n` is kept as it
/// is, and no empty line follows a final `\n`.
pub open spec fn lines_of(s: Seq<char>) -> Seq<Seq<char>>
    decreases s.len(),
{
    if s.len() == 0 {
        Seq::empty()
    } else if exists|i: int| first_occurrence_at(s, seq!['\n'], i) {
        let i = choose|i: int| first_occurrence_at(s, seq!['\n'], i);
        seq![strip_cr(s.take(i))] + lines_of(s.skip(i + 1))
    } else {
        seq![s]
    }
}

proof fn lemma_occurs_char(s: Seq<char>, c: char, i: int)
    ensures
        occurs_at(s, seq![c], i) <==> (0 <= i < s.len() && s[i] == c),
{
    if 0 <= i < s.len() && s[i] == c {
        assert(s.subrange(i, i + 1) =~= seq![c]);
    }
    if occurs_at(s, seq![c], i) {
        assert(s.subrange(i, i + 1)[0] == s[i]);
    }
}

fn strip_cr_exec(v: Vec<char>) -> (out: Vec<char>)
    ensures
        out@ == strip_cr(v@),
{
    let mut v = v;
    let n = v.len();
    if n > 0 && v[n - 1] == '\r' {
        v.pop();
    }
    v
}

/// Splits `text` into lines, as `str::lines` does.
pub fn split_lines(text: &str) -> (lines: Vec<String>)
    ensures
        lines@.len() == lines_of(text@).len(),
        forall|k: int| 0 <= k < lines@.len() ==> (#[trigger] lines@[k])@ == lines_of(text@)[k],
{
    let chars = chars_of(text);
    let n = chars.len();
    let mut lines: Vec<String> = Vec::new();
    let mut start: usize = 0;
    let ghost done: Seq<Seq<char>> = Seq::empty();
    assert(chars@.skip(0) =~= chars@);
    while start < n
        invariant
            n == chars@.len(),
            chars@ == text@,
            start <= n,
            lines@.len() == done.len(),
            forall|k: int| 0 <= k < lines@.len() ==> (#[trigger] lines@[k])@ == done[k],
            done + lines_of(chars@.skip(start as int)) == lines_of(text@),
        decreases n - start,
    {
        let ghost rest = chars@.skip(start as int);
        let mut j = start;
        while j < n && chars[j] != '\n'
            invariant
                n == chars@.len(),
                start <= j <= n,
                rest == chars@.skip(start as int),
                forall|q: int| start <= q < j ==> chars@[q] != '\n',
            decreases n - j,
        {
            j = j + 1;
        }
        let line = strip_cr_exec(sub_chars(&chars, start, j));
        if j < n {
            proof {
                lemma_occurs_char(rest, '\n', j - start);
                assert forall|q: int| 0 <= q < j - start implies !occurs_at(rest, seq!['\n'], q) by {
                    lemma_occurs_char(rest, '\n', q);
                }
                assert(first_occurrence_at(rest, seq!['\n'], j - start));
                let i = choose|i: int| first_occurrence_at(rest, seq!['\n'], i);
                lemma_first_occurrence_unique(rest, seq!['\n'], i, j - start);
                assert(rest.take(j - start) =~= chars@.subrange(start as int, j as int));
                assert(rest.skip(j - start + 1) =~= chars@.skip(j + 1));
                assert(done.push(line@) + lines_of(chars@.skip(j + 1)) =~= done + lines_of(rest));
            }
            lines.push(string_from_chars(&line));
            proof {
                done = done.push(line@);
            }
            start = j + 1;
        } else {
            proof {
                assert forall|q: int| !occurs_at(rest, seq!['\n'], q) by {
                    lemma_occurs_char(rest, '\n', q);
                }
                assert(rest =~= chars@.subrange(start as int, n as int));
                assert(rest.len() > 0);
            }
            // A last line without a line feed keeps any carriage return.
            let whole = sub_chars(&chars, start, n);
            lines.push(string_from_chars(&whole));
            proof {
                assert(done.push(whole@) + lines_of(chars@.skip(n as int)) =~= done + lines_of(rest));
                done = done.push(whole@);
            }
            start = n;
        }
    }
    assert(done + lines_of(chars@.skip(n as int)) =~= done);
    lines
}

/// Parsing agrees with `str::parse::<usize>` on decimal strings: a non-empty
/// string of characters from '0' to '9' whose value fits in a `usize`
/// parses to that value, and whatever parses is an optional `+` followed by
/// such characters only.
pub proof fn lemma_parse_decimal(s: Seq<char>)
    ensures
        s.len() > 0 && (forall|i: int| 0 <= i < s.len() ==> '0' <= #[trigger] s[i] && s[i] <= '9')
            && digits_value(s) <= usize::MAX ==> parsed_usize(s) == Some(digits_value(s)),
        parsed_usize(s) is Some ==> forall|i: int|
            0 <= i < unsigned_part(s).len() ==> '0' <= #[trigger] unsigned_part(s)[i] && unsigned_part(s)[i]
                <= '9',
{
    if s.len() > 0 && (forall|i: int| 0 <= i < s.len() ==> '0' <= #[trigger] s[i] && s[i] <= '9') {
        assert(s[0] != '+');
        assert(unsigned_part(s) == s);
        assert(all_digits(s));
    }
}

/// Each decimal digit alone parses to its value: "0" to 0, ..., "9" to 9.
pub proof fn lemma_parse_single_digit(c: char)
    requires
        '0' <= c && c <= '9',
    ensures
        parsed_usize(seq![c]) == Some(c as int - '0' as int),
{
    let s = seq![c];
    assert(unsigned_part(s) == s);
    assert(all_digits(s));
    assert(s.drop_last() =~= Seq::<char>::empty());
    assert(digits_value(s.drop_last()) == 0);
    assert(s.last() == c);
    assert(digits_value(s) == c as int - '0' as int);
    assert(c as int - '0' as int <= 9);
}

} // verus!
