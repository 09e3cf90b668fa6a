//! Stress position of monotonic Modern Greek words and the enclitic
//! double-accent spelling of proparoxytone words.
//!
//! Monotonic orthography marks stress with a single tonos; only the position
//! of the stressed syllable, counted from the end of the word, matters here.
//! A proparoxytone word (stress on the third syllable from the end) gains a
//! second acute on its final syllable when an enclitic follows it in running
//! text, e.g. χαρτοφύλακα + του -> "χαρτοφύλακά του".
use vstd::prelude::*;
use crate::text::{chars_of, string_from_chars};

verus! {

// ---------------------------------------------------------------------------
// Letters
// ---------------------------------------------------------------------------

/// Greek vowel letters, lower or upper case, bare or carrying tonos and/or
/// diaeresis.
pub open spec fn vowel(c: char) -> bool {
    c == 'α' || c == 'ε' || c == 'η' || c == 'ι' || c == 'ο' || c == 'υ' || c == 'ω'
    || c == 'ά' || c == 'έ' || c == 'ή' || c == 'ί' || c == 'ό' || c == 'ύ' || c == 'ώ'
    || c == 'ϊ' || c == 'ϋ' || c == 'ΐ' || c == 'ΰ'
    || c == 'Α' || c == 'Ε' || c == 'Η' || c == 'Ι' || c == 'Ο' || c == 'Υ' || c == 'Ω'
    || c == 'Ά' || c == 'Έ' || c == 'Ή' || c == 'Ί' || c == 'Ό' || c == 'Ύ' || c == 'Ώ'
    || c == 'Ϊ' || c == 'Ϋ'
}

/// Vowel letters that carry the tonos (acute) mark.
pub open spec fn accented(c: char) -> bool {
    c == 'ά' || c == 'έ' || c == 'ή' || c == 'ί' || c == 'ό' || c == 'ύ' || c == 'ώ'
    || c == 'ΐ' || c == 'ΰ'
    || c == 'Ά' || c == 'Έ' || c == 'Ή' || c == 'Ί' || c == 'Ό' || c == 'Ύ' || c == 'Ώ'
}

/// Vowel letters that carry a diaeresis.
pub open spec fn diaeresis(c: char) -> bool {
    c == 'ϊ' || c == 'ϋ' || c == 'ΐ' || c == 'ΰ' || c == 'Ϊ' || c == 'Ϋ'
}

/// The lower-case bare vowel underlying a vowel letter (accent, diaeresis and
/// case removed); `None` for anything that is not a Greek vowel.
pub open spec fn base_of(c: char) -> Option<char> {
    if c == 'α' || c == 'ά' || c == 'Α' || c == 'Ά' {
        Some('α')
    } else if c == 'ε' || c == 'έ' || c == 'Ε' || c == 'Έ' {
        Some('ε')
    } else if c == 'η' || c == 'ή' || c == 'Η' || c == 'Ή' {
        Some('η')
    } else if c == 'ι' || c == 'ί' || c == 'ϊ' || c == 'ΐ' || c == 'Ι' || c == 'Ί' || c == 'Ϊ' {
        Some('ι')
    } else if c == 'ο' || c == 'ό' || c == 'Ο' || c == 'Ό' {
        Some('ο')
    } else if c == 'υ' || c == 'ύ' || c == 'ϋ' || c == 'ΰ' || c == 'Υ' || c == 'Ύ' || c == 'Ϋ' {
        Some('υ')
    } else if c == 'ω' || c == 'ώ' || c == 'Ω' || c == 'Ώ' {
        Some('ω')
    } else {
        None
    }
}

/// The precomposed letter with an acute added, for the unaccented vowels
/// that have one; `None` for every other character.
pub open spec fn acute_of(c: char) -> Option<char> {
    if c == 'α' { Some('ά') }
    else if c == 'ε' { Some('έ') }
    else if c == 'η' { Some('ή') }
    else if c == 'ι' { Some('ί') }
    else if c == 'ο' { Some('ό') }
    else if c == 'υ' { Some('ύ') }
    else if c == 'ω' { Some('ώ') }
    else if c == 'Α' { Some('Ά') }
    else if c == 'Ε' { Some('Έ') }
    else if c == 'Η' { Some('Ή') }
    else if c == 'Ι' { Some('Ί') }
    else if c == 'Ο' { Some('Ό') }
    else if c == 'Υ' { Some('Ύ') }
    else if c == 'Ω' { Some('Ώ') }
    else if c == 'ϊ' { Some('ΐ') }
    else if c == 'ϋ' { Some('ΰ') }
    else { None }
}

/// Two bare vowels that spell one syllable nucleus: αι, ει, οι, ου, υι.
pub open spec fn digraph_pair(a: char, b: char) -> bool {
    (a == 'α' && b == 'ι') || (a == 'ε' && b == 'ι') || (a == 'ο' && b == 'ι')
    || (a == 'ο' && b == 'υ') || (a == 'υ' && b == 'ι')
}

/// A letter is a vowel exactly when it has an underlying bare vowel.
pub proof fn lemma_vowel_iff_base(c: char)
    ensures
        vowel(c) <==> base_of(c) is Some,
{
}

/// Adding an acute turns an unaccented vowel into an accented one of the same
/// underlying vowel, and keeps its diaeresis; accented letters have no
/// further acute form.
pub proof fn lemma_acute_of(c: char)
    ensures
        acute_of(c) matches Some(a) ==> {
            &&& vowel(c) && vowel(a)
            &&& !accented(c) && accented(a)
            &&& base_of(a) == base_of(c)
            &&& diaeresis(a) == diaeresis(c)
        },
        accented(c) ==> acute_of(c) is None,
{
}

fn is_vowel(c: char) -> (b: bool)
    ensures
        b == vowel(c),
{
    match c {
        'α' | 'ε' | 'η' | 'ι' | 'ο' | 'υ' | 'ω' | 'ά' | 'έ' | 'ή' | 'ί' | 'ό' | 'ύ' | 'ώ' | 'ϊ'
        | 'ϋ' | 'ΐ' | 'ΰ' | 'Α' | 'Ε' | 'Η' | 'Ι' | 'Ο' | 'Υ' | 'Ω' | 'Ά' | 'Έ' | 'Ή' | 'Ί'
        | 'Ό' | 'Ύ' | 'Ώ' | 'Ϊ' | 'Ϋ' => true,
        _ => false,
    }
}

fn has_accent(c: char) -> (b: bool)
    ensures
        b == accented(c),
{
    match c {
        'ά' | 'έ' | 'ή' | 'ί' | 'ό' | 'ύ' | 'ώ' | 'ΐ' | 'ΰ' | 'Ά' | 'Έ' | 'Ή' | 'Ί' | 'Ό' | 'Ύ'
        | 'Ώ' => true,
        _ => false,
    }
}

fn has_diaeresis(c: char) -> (b: bool)
    ensures
        b == diaeresis(c),
{
    match c {
        'ϊ' | 'ϋ' | 'ΐ' | 'ΰ' | 'Ϊ' | 'Ϋ' => true,
        _ => false,
    }
}

/// Lower-case bare vowel identity, used only to classify digraphs.
fn base_vowel(c: char) -> (r: Option<char>)
    ensures
        r == base_of(c),
{
    match c {
        'α' | 'ά' | 'Α' | 'Ά' => Some('α'),
        'ε' | 'έ' | 'Ε' | 'Έ' => Some('ε'),
        'η' | 'ή' | 'Η' | 'Ή' => Some('η'),
        'ι' | 'ί' | 'ϊ' | 'ΐ' | 'Ι' | 'Ί' | 'Ϊ' => Some('ι'),
        'ο' | 'ό' | 'Ο' | 'Ό' => Some('ο'),
        'υ' | 'ύ' | 'ϋ' | 'ΰ' | 'Υ' | 'Ύ' | 'Ϋ' => Some('υ'),
        'ω' | 'ώ' | 'Ω' | 'Ώ' => Some('ω'),
        _ => None,
    }
}

fn add_acute(c: char) -> (r: Option<char>)
    ensures
        r == acute_of(c),
{
    match c {
        'α' => Some('ά'),
        'ε' => Some('έ'),
        'η' => Some('ή'),
        'ι' => Some('ί'),
        'ο' => Some('ό'),
        'υ' => Some('ύ'),
        'ω' => Some('ώ'),
        'Α' => Some('Ά'),
        'Ε' => Some('Έ'),
        'Η' => Some('Ή'),
        'Ι' => Some('Ί'),
        'Ο' => Some('Ό'),
        'Υ' => Some('Ύ'),
        'Ω' => Some('Ώ'),
        'ϊ' => Some('ΐ'),
        'ϋ' => Some('ΰ'),
        _ => None,
    }
}

fn is_digraph_pair(first_base: char, second_base: char) -> (b: bool)
    ensures
        b == digraph_pair(first_base, second_base),
{
    (first_base == 'α' && second_base == 'ι') || (first_base == 'ε' && second_base == 'ι')
        || (first_base == 'ο' && second_base == 'ι') || (first_base == 'ο' && second_base == 'υ')
        || (first_base == 'υ' && second_base == 'ι')
}


// ---------------------------------------------------------------------------
// Syllable nuclei
// ---------------------------------------------------------------------------

/// A vowel digraph nucleus (αι, ει, οι, ου, υι) starts at `i`: merging is
/// suppressed when the first letter carries the tonos (hiatus, as in
/// νερ-ά-ι-δα) or the second carries a diaeresis.
pub open spec fn digraph_at(s: Seq<char>, i: int) -> bool {
    &&& 0 <= i && i + 1 < s.len()
    &&& vowel(s[i]) && vowel(s[i + 1])
    &&& match (base_of(s[i]), base_of(s[i + 1])) {
        (Some(a), Some(b)) => digraph_pair(a, b),
        _ => false,
    }
    &&& !accented(s[i]) && !diaeresis(s[i + 1])
}

/// Synizesis: an unstressed ι (without diaeresis) standing between a
/// consonant and a following vowel glides into that vowel's syllable and has
/// no nucleus of its own (the -δια of πόδια is one syllable).
pub open spec fn glide_at(s: Seq<char>, i: int) -> bool {
    &&& 0 < i && i + 1 < s.len()
    &&& base_of(s[i]) == Some('ι')
    &&& !accented(s[i]) && !diaeresis(s[i])
    &&& !vowel(s[i - 1])
    &&& vowel(s[i + 1])
}

/// The syllable nuclei of `s` found by scanning from position `i`, each as a
/// half-open range `(start, end)` of positions in `s`.
pub open spec fn nuclei_from(s: Seq<char>, i: int) -> Seq<(int, int)>
    decreases s.len() - i,
{
    if i < 0 || i >= s.len() {
        Seq::empty()
    } else if !vowel(s[i]) {
        nuclei_from(s, i + 1)
    } else if digraph_at(s, i) {
        seq![(i, i + 2)] + nuclei_from(s, i + 2)
    } else if glide_at(s, i) {
        nuclei_from(s, i + 1)
    } else {
        seq![(i, i + 1)] + nuclei_from(s, i + 1)
    }
}

/// The syllable nuclei of a word, left to right.
pub open spec fn syllables(s: Seq<char>) -> Seq<(int, int)> {
    nuclei_from(s, 0)
}

/// Nuclei as integer ranges.
pub open spec fn ranges_view(v: Seq<(usize, usize)>) -> Seq<(int, int)> {
    v.map_values(|p: (usize, usize)| (p.0 as int, p.1 as int))
}

/// Shape of the scan from `i`: each nucleus is one vowel, or a digraph of
/// two, inside `[i, s.len())`; nuclei come in increasing, disjoint order; and
/// scanning again from the end of any nucleus yields exactly the nuclei
/// after it.
pub proof fn lemma_nuclei_shape(s: Seq<char>, i: int)
    requires
        0 <= i,
    ensures
        forall|k: int|
            #![trigger nuclei_from(s, i)[k]]
            0 <= k < nuclei_from(s, i).len() ==> {
                let p = nuclei_from(s, i)[k];
                &&& i <= p.0 < p.1 <= s.len()
                &&& p.1 == p.0 + 1 || p.1 == p.0 + 2
                &&& vowel(s[p.0])
                &&& p.1 == p.0 + 2 ==> digraph_at(s, p.0)
                &&& p.1 == p.0 + 1 ==> !digraph_at(s, p.0) && !glide_at(s, p.0)
                &&& nuclei_from(s, p.1) == nuclei_from(s, i).skip(k + 1)
            },
        forall|k1: int, k2: int|
            0 <= k1 < k2 < nuclei_from(s, i).len() ==> #[trigger] nuclei_from(s, i)[k1].1
                <= #[trigger] nuclei_from(s, i)[k2].0,
    decreases s.len() - i,
{
    if i >= s.len() {
    } else if !vowel(s[i]) {
        lemma_nuclei_shape(s, i + 1);
    } else if glide_at(s, i) && !digraph_at(s, i) {
        lemma_nuclei_shape(s, i + 1);
    } else {
        let next = if digraph_at(s, i) {
            i + 2
        } else {
            i + 1
        };
        lemma_nuclei_shape(s, next);
        let rest = nuclei_from(s, next);
        let all = nuclei_from(s, i);
        assert(all == seq![(i, next)] + rest);
        assert forall|k: int| 0 <= k < all.len() implies ({
            let p = #[trigger] all[k];
            &&& i <= p.0 < p.1 <= s.len()
            &&& p.1 == p.0 + 1 || p.1 == p.0 + 2
            &&& vowel(s[p.0])
            &&& p.1 == p.0 + 2 ==> digraph_at(s, p.0)
            &&& p.1 == p.0 + 1 ==> !digraph_at(s, p.0) && !glide_at(s, p.0)
            &&& nuclei_from(s, p.1) == all.skip(k + 1)
        }) by {
            if k == 0 {
                assert(all[0] == (i, next));
                assert(all.skip(1) =~= rest);
            } else {
                assert(all[k] == rest[k - 1]);
                assert(all.skip(k + 1) =~= rest.skip(k));
            }
        }
        assert forall|k1: int, k2: int| 0 <= k1 < k2 < all.len() implies #[trigger] all[k1].1
            <= #[trigger] all[k2].0 by {
            assert(all[k2] == rest[k2 - 1]);
            if k1 > 0 {
                assert(all[k1] == rest[k1 - 1]);
            }
        }
    }
}

/// When the scan from `i` finds no nucleus, no vowel follows `i`.
pub proof fn lemma_no_nuclei_no_vowel(s: Seq<char>, i: int)
    requires
        0 <= i,
        nuclei_from(s, i).len() == 0,
    ensures
        forall|j: int| i <= j < s.len() ==> !vowel(#[trigger] s[j]),
    decreases s.len() - i,
{
    if i < s.len() {
        if !vowel(s[i]) {
            lemma_no_nuclei_no_vowel(s, i + 1);
        } else if digraph_at(s, i) {
        } else if glide_at(s, i) {
            lemma_no_nuclei_no_vowel(s, i + 1);
        } else {
        }
    }
}

/// Every accented letter at or after `i` lies inside a nucleus found by the
/// scan from `i` (an accented ι never glides).
pub proof fn lemma_accent_in_nucleus(s: Seq<char>, i: int, j: int)
    requires
        0 <= i <= j < s.len(),
        accented(s[j]),
    ensures
        exists|k: int|
            0 <= k < nuclei_from(s, i).len() && nuclei_from(s, i)[k].0 <= j
                < #[trigger] nuclei_from(s, i)[k].1,
    decreases s.len() - i,
{
    let all = nuclei_from(s, i);
    if !vowel(s[i]) {
        lemma_accent_in_nucleus(s, i + 1, j);
    } else if digraph_at(s, i) {
        if j <= i + 1 {
            assert(all[0] == (i, i + 2));
            assert(all[0].0 <= j < all[0].1);
        } else {
            lemma_accent_in_nucleus(s, i + 2, j);
            let rest = nuclei_from(s, i + 2);
            let k = choose|k: int| 0 <= k < rest.len() && rest[k].0 <= j < #[trigger] rest[k].1;
            assert(all[k + 1] == rest[k]);
            assert(all[k + 1].0 <= j < all[k + 1].1);
        }
    } else if glide_at(s, i) {
        lemma_accent_in_nucleus(s, i + 1, j);
    } else {
        if j == i {
            assert(all[0] == (i, i + 1));
            assert(all[0].0 <= j < all[0].1);
        } else {
            lemma_accent_in_nucleus(s, i + 1, j);
            let rest = nuclei_from(s, i + 1);
            let k = choose|k: int| 0 <= k < rest.len() && rest[k].0 <= j < #[trigger] rest[k].1;
            assert(all[k + 1] == rest[k]);
            assert(all[k + 1].0 <= j < all[k + 1].1);
        }
    }
}

/// Two words with the same letter classes position by position have the
/// same nuclei.
pub proof fn lemma_nuclei_congruent(s1: Seq<char>, s2: Seq<char>, i: int)
    requires
        0 <= i,
        s1.len() == s2.len(),
        forall|j: int|
            0 <= j < s1.len() ==> (vowel(#[trigger] s1[j]) == vowel(s2[j]) && digraph_at(s1, j)
                == digraph_at(s2, j) && glide_at(s1, j) == glide_at(s2, j)),
    ensures
        nuclei_from(s1, i) == nuclei_from(s2, i),
    decreases s1.len() - i,
{
    if i < s1.len() {
        assert(vowel(s1[i]) == vowel(s2[i]));
        lemma_nuclei_congruent(s1, s2, i + 1);
        if i + 2 <= s1.len() {
            lemma_nuclei_congruent(s1, s2, i + 2);
        }
    }
}

fn digraph_starts_at(chars: &Vec<char>, i: usize) -> (b: bool)
    requires
        i < chars@.len(),
    ensures
        b == digraph_at(chars@, i as int),
{
    let n = chars.len();
    if i + 1 < n && is_vowel(chars[i]) && is_vowel(chars[i + 1]) {
        match (base_vowel(chars[i]), base_vowel(chars[i + 1])) {
            (Some(fb), Some(sb)) => is_digraph_pair(fb, sb) && !has_accent(chars[i])
                && !has_diaeresis(chars[i + 1]),
            _ => false,
        }
    } else {
        false
    }
}

fn glides_at(chars: &Vec<char>, i: usize) -> (b: bool)
    requires
        i < chars@.len(),
    ensures
        b == glide_at(chars@, i as int),
{
    let n = chars.len();
    base_vowel(chars[i]) == Some('ι') && !has_accent(chars[i]) && !has_diaeresis(chars[i]) && i
        > 0 && !is_vowel(chars[i - 1]) && i + 1 < n && is_vowel(chars[i + 1])
}

/// Splits `chars` into syllable-nucleus ranges, merging vowel digraphs and
/// letting an unstressed ι between a consonant and a vowel glide into the
/// following syllable.
fn find_nuclei(chars: &Vec<char>) -> (nuclei: Vec<(usize, usize)>)
    ensures
        ranges_view(nuclei@) == syllables(chars@),
{
    let mut nuclei: Vec<(usize, usize)> = Vec::new();
    let n = chars.len();
    let mut i: usize = 0;
    while i < n
        invariant
            n == chars@.len(),
            i <= n,
            ranges_view(nuclei@) + nuclei_from(chars@, i as int) == syllables(chars@),
        decreases n - i,
    {
        let ghost before = ranges_view(nuclei@);
        if !is_vowel(chars[i]) {
            i = i + 1;
        } else if digraph_starts_at(chars, i) {
            nuclei.push((i, i + 2));
            assert(ranges_view(nuclei@) =~= before.push((i as int, i + 2)));
            assert(before + nuclei_from(chars@, i as int) =~= before.push((i as int, i + 2))
                + nuclei_from(chars@, i + 2));
            i = i + 2;
        } else if glides_at(chars, i) {
            i = i + 1;
        } else {
            nuclei.push((i, i + 1));
            assert(ranges_view(nuclei@) =~= before.push((i as int, i + 1)));
            assert(before + nuclei_from(chars@, i as int) =~= before.push((i as int, i + 1))
                + nuclei_from(chars@, i + 1));
            i = i + 1;
        }
    }
    assert(ranges_view(nuclei@) + nuclei_from(chars@, n as int) =~= ranges_view(nuclei@));
    nuclei
}

// ---------------------------------------------------------------------------
// Stress position
// ---------------------------------------------------------------------------

/// Some letter at a position in `[p.0, p.1)` of `s` carries the tonos.
pub open spec fn range_accented(s: Seq<char>, p: (int, int)) -> bool {
    exists|j: int| p.0 <= j < p.1 && accented(#[trigger] s[j])
}

/// Index of the first nucleus, at or after `k`, that holds an accented letter.
pub open spec fn first_accented(s: Seq<char>, nuc: Seq<(int, int)>, k: int) -> Option<int>
    decreases nuc.len() - k,
{
    if k < 0 || k >= nuc.len() {
        None
    } else if range_accented(s, nuc[k]) {
        Some(k)
    } else {
        first_accented(s, nuc, k + 1)
    }
}

/// Distance of the stressed syllable from the end of the word (1 = final,
/// 2 = penult, 3 = antepenult), the stressed syllable being the first one
/// that carries a tonos; `None` when no syllable carries one.
pub open spec fn stress_from_end(s: Seq<char>) -> Option<int> {
    match first_accented(s, syllables(s), 0) {
        Some(k) => Some(syllables(s).len() - k),
        None => None,
    }
}

/// Stressed on the antepenultimate syllable.
pub open spec fn proparoxytone(s: Seq<char>) -> bool {
    stress_from_end(s) == Some(3int)
}

/// The enclitic spelling of a proparoxytone word: its final syllable's last
/// letter (the second letter of a final digraph) gains an acute; `None` when
/// the word is not proparoxytone or that letter has no precomposed acute form.
pub open spec fn double_accented(s: Seq<char>) -> Option<Seq<char>> {
    if proparoxytone(s) {
        let t = syllables(s).last().1 - 1;
        match acute_of(s[t]) {
            Some(a) => Some(s.update(t, a)),
            None => None,
        }
    } else {
        None
    }
}

proof fn lemma_first_accented(s: Seq<char>, nuc: Seq<(int, int)>, k: int)
    requires
        0 <= k,
    ensures
        first_accented(s, nuc, k) is None ==> forall|kk: int|
            k <= kk < nuc.len() ==> !range_accented(s, #[trigger] nuc[kk]),
        first_accented(s, nuc, k) matches Some(m) ==> {
            &&& k <= m < nuc.len()
            &&& range_accented(s, nuc[m])
            &&& forall|kk: int| k <= kk < m ==> !range_accented(s, #[trigger] nuc[kk])
        },
    decreases nuc.len() - k,
{
    if k < nuc.len() && !range_accented(s, nuc[k]) {
        lemma_first_accented(s, nuc, k + 1);
    }
}

proof fn lemma_first_accented_agree(
    s1: Seq<char>,
    s2: Seq<char>,
    nuc: Seq<(int, int)>,
    k: int,
    m: int,
)
    requires
        0 <= k <= m < nuc.len(),
        first_accented(s1, nuc, k) == Some(m),
        forall|kk: int|
            k <= kk <= m ==> range_accented(s1, #[trigger] nuc[kk]) == range_accented(s2, nuc[kk]),
    ensures
        first_accented(s2, nuc, k) == Some(m),
    decreases m - k,
{
    lemma_first_accented(s1, nuc, k);
    if k < m {
        assert(!range_accented(s1, nuc[k]));
        lemma_first_accented_agree(s1, s2, nuc, k + 1, m);
    }
}

fn range_has_accent(chars: &Vec<char>, start: usize, end: usize) -> (b: bool)
    requires
        start <= end <= chars@.len(),
    ensures
        b == range_accented(chars@, (start as int, end as int)),
{
    let mut j = start;
    while j < end
        invariant
            start <= j <= end,
            end <= chars@.len(),
            forall|m: int| start <= m < j ==> !accented(#[trigger] chars@[m]),
        decreases end - j,
    {
        if has_accent(chars[j]) {
            assert(accented(chars@[j as int]));
            return true;
        }
        j = j + 1;
    }
    false
}

/// Distance of the stressed syllable from the end (1 = final/oxytone,
/// 2 = penult/paroxytone, 3 = antepenult/proparoxytone). `None` if the word
/// carries no tonos mark at all.
pub fn stress_position_from_end(word: &str) -> (r: Option<usize>)
    ensures
        match r {
            Some(n) => stress_from_end(word@) == Some(n as int),
            None => stress_from_end(word@) is None,
        },
{
    let chars = chars_of(word);
    let nuclei = find_nuclei(&chars);
    let ghost nuc = nuclei_from(chars@, 0);
    proof {
        lemma_nuclei_shape(chars@, 0);
    }
    let len = nuclei.len();
    let mut k: usize = 0;
    while k < len
        invariant
            len == nuclei@.len(),
            ranges_view(nuclei@) == nuc,
            nuc == nuclei_from(chars@, 0),
            chars@ == word@,
            k <= len,
            forall|kk: int|
                0 <= kk < nuc.len() ==> 0 <= (#[trigger] nuc[kk]).0 < nuc[kk].1 <= chars@.len(),
            first_accented(chars@, nuc, 0) == first_accented(chars@, nuc, k as int),
        decreases len - k,
    {
        let (start, end) = nuclei[k];
        assert(nuc[k as int] == (start as int, end as int));
        if range_has_accent(&chars, start, end) {
            assert(first_accented(chars@, nuc, k as int) == Some(k as int));
            assert(syllables(word@) == nuc);
            return Some(len - k);
        }
        k = k + 1;
    }
    None
}

/// True if `word` is stressed on the antepenultimate syllable
/// (proparoxytone), the class that gains a second acute on the final
/// syllable before an enclitic.
pub fn is_proparoxytone(word: &str) -> (b: bool)
    ensures
        b == proparoxytone(word@),
{
    match stress_position_from_end(word) {
        Some(n) => n == 3,
        None => false,
    }
}

/// If `word` is proparoxytone, returns the enclitic-attached spelling: the
/// same string with an additional acute added to the final syllable's vowel
/// (landing on the second letter when the final syllable is a digraph),
/// keeping the existing antepenult accent untouched, e.g. χαρτοφύλακα ->
/// χαρτοφύλακά. Returns `None` for anything else (oxytone, paroxytone,
/// unaccented, or a final vowel with no precomposed acute form).
pub fn enclitic_double_accent(word: &str) -> (r: Option<String>)
    ensures
        match r {
            Some(out) => double_accented(word@) == Some(out@),
            None => double_accented(word@) is None,
        },
{
    if !is_proparoxytone(word) {
        return None;
    }
    let mut chars = chars_of(word);
    let nuclei = find_nuclei(&chars);
    proof {
        lemma_nuclei_shape(chars@, 0);
    }
    if nuclei.len() == 0 {
        return None;
    }
    let (_, last_end) = nuclei[nuclei.len() - 1];
    assert(ranges_view(nuclei@)[nuclei@.len() - 1] == syllables(chars@).last());
    let target = last_end - 1;
    match add_acute(chars[target]) {
        Some(a) => {
            chars.set(target, a);
            Some(string_from_chars(&chars))
        },
        None => None,
    }
}

// ---------------------------------------------------------------------------
// Laws
// ---------------------------------------------------------------------------

/// A word has no stress position exactly when none of its letters carries
/// the tonos mark.
pub proof fn lemma_unstressed_iff_no_tonos(s: Seq<char>)
    ensures
        stress_from_end(s) is None <==> forall|j: int| 0 <= j < s.len() ==> !accented(#[trigger] s[j]),
{
    let nuc = nuclei_from(s, 0);
    lemma_nuclei_shape(s, 0);
    lemma_first_accented(s, nuc, 0);
    if stress_from_end(s) is None {
        assert forall|j: int| 0 <= j < s.len() implies !accented(#[trigger] s[j]) by {
            if accented(s[j]) {
                lemma_accent_in_nucleus(s, 0, j);
                let k = choose|k: int| 0 <= k < nuc.len() && nuc[k].0 <= j < #[trigger] nuc[k].1;
                assert(range_accented(s, nuc[k]));
            }
        }
    } else {
        let m = first_accented(s, nuc, 0)->0;
        assert(range_accented(s, nuc[m]));
        let j = choose|j: int| nuc[m].0 <= j < nuc[m].1 && accented(#[trigger] s[j]);
        assert(0 <= j < s.len() && accented(s[j]));
    }
}

/// A stress position counts syllables from the end: it is at least 1 and at
/// most the number of syllables of the word.
pub proof fn lemma_stress_within_word(s: Seq<char>)
    ensures
        stress_from_end(s) matches Some(n) ==> 1 <= n <= syllables(s).len(),
{
    lemma_first_accented(s, syllables(s), 0);
}

/// The enclitic spelling differs from the word in exactly one letter, a
/// letter of the final syllable that gains an acute over the same vowel; it
/// keeps the word's syllables, is still stressed on the antepenult (the
/// first accent is untouched), and cannot be doubled a second time.
pub proof fn lemma_double_accent_stable(s: Seq<char>)
    ensures
        double_accented(s) matches Some(r) ==> {
            &&& r.len() == s.len()
            &&& syllables(r) == syllables(s)
            &&& proparoxytone(r)
            &&& double_accented(r) is None
            &&& exists|t: int|
                syllables(s).last().0 <= t < syllables(s).last().1 && !accented(s[t])
                    && accented(#[trigger] r[t]) && base_of(r[t]) == base_of(s[t])
                    && forall|j: int| 0 <= j < s.len() && j != t ==> r[j] == s[j]
        },
{
    if double_accented(s) is Some {
        let r = double_accented(s)->0;
        let nuc = nuclei_from(s, 0);
        lemma_nuclei_shape(s, 0);
        lemma_first_accented(s, nuc, 0);
        let len = nuc.len() as int;
        let m = first_accented(s, nuc, 0)->0;
        assert(m == len - 3);
        let last = nuc[len - 1];
        let t = last.1 - 1;
        let a = acute_of(s[t])->0;
        lemma_acute_of(s[t]);
        assert(r == s.update(t, a));
        assert(nuc.skip(len as int) =~= Seq::<(int, int)>::empty());
        lemma_no_nuclei_no_vowel(s, last.1);
        assert forall|j: int| 0 <= j < s.len() implies (vowel(#[trigger] s[j]) == vowel(r[j])
            && digraph_at(s, j) == digraph_at(r, j) && glide_at(s, j) == glide_at(r, j)) by {
            if t + 1 < s.len() {
                assert(!vowel(s[t + 1]));
            }
        }
        lemma_nuclei_congruent(s, r, 0);
        assert forall|kk: int| 0 <= kk <= m implies range_accented(s, #[trigger] nuc[kk])
            == range_accented(r, nuc[kk]) by {
            assert(nuc[kk].1 <= nuc[len - 1].0);
            if range_accented(s, nuc[kk]) {
                let j = choose|j: int| nuc[kk].0 <= j < nuc[kk].1 && accented(#[trigger] s[j]);
                assert(r[j] == s[j]);
            }
            if range_accented(r, nuc[kk]) {
                let j = choose|j: int| nuc[kk].0 <= j < nuc[kk].1 && accented(#[trigger] r[j]);
                assert(r[j] == s[j]);
            }
        }
        lemma_first_accented_agree(s, r, nuc, 0, m);
        lemma_acute_of(a);
        assert(r[t] == a);
        assert(syllables(r).last().1 - 1 == t);
    }
}

// ---------------------------------------------------------------------------
// Laws on letter case, digraphs and synizesis
// ---------------------------------------------------------------------------

/// Lower-case letters of the Greek block: U+03AC..=U+03CE and U+0390 (ΐ).
pub open spec fn greek_lower_case(c: char) -> bool {
    let v = c as u32;
    (0x3AC <= v && v <= 0x3CE) || v == 0x390
}

/// Upper-case letters of the Greek block: U+0386..=U+03AB except the ano
/// teleia U+0387 and the lower-case U+0390.
pub open spec fn greek_upper_case(c: char) -> bool {
    let v = c as u32;
    0x386 <= v && v <= 0x3AB && v != 0x387 && v != 0x390
}

/// Adding an acute keeps the letter's case: a lower-case vowel gains the
/// lower-case accented letter (η gives ή), an upper-case vowel the
/// upper-case one (Η gives Ή).
pub proof fn lemma_acute_keeps_case(c: char)
    ensures
        acute_of(c) matches Some(a) ==> {
            &&& greek_lower_case(c) || greek_upper_case(c)
            &&& greek_lower_case(a) == greek_lower_case(c)
            &&& greek_upper_case(a) == greek_upper_case(c)
        },
{
}

/// The enclitic spelling keeps the case of every letter: in particular the
/// enclitic spelling of a lower-case word is lower-case.
pub proof fn lemma_double_accent_keeps_case(s: Seq<char>)
    ensures
        double_accented(s) matches Some(r) ==> forall|j: int|
            0 <= j < s.len() ==> greek_lower_case(#[trigger] r[j]) == greek_lower_case(s[j])
                && greek_upper_case(r[j]) == greek_upper_case(s[j]),
{
    if double_accented(s) is Some {
        let r = double_accented(s)->0;
        let nuc = nuclei_from(s, 0);
        lemma_nuclei_shape(s, 0);
        lemma_first_accented(s, nuc, 0);
        assert(nuc.len() >= 3);
        let last = nuc[nuc.len() - 1];
        let t = last.1 - 1;
        assert(0 <= t < s.len());
        let a = acute_of(s[t])->0;
        lemma_acute_keeps_case(s[t]);
        assert(r == s.update(t, a));
        assert forall|j: int| 0 <= j < s.len() implies greek_lower_case(#[trigger] r[j])
            == greek_lower_case(s[j]) && greek_upper_case(r[j]) == greek_upper_case(s[j]) by {
            if j != t {
                assert(r[j] == s[j]);
            }
        }
    }
}

/// Scanning from `j` reaches position `i` when `i` starts the word or follows
/// a consonant: the nuclei found from `j` are some nuclei ending at or before
/// `i`, followed by exactly the nuclei found from `i`.
pub proof fn lemma_scan_reaches(s: Seq<char>, j: int, i: int) -> (m: int)
    requires
        0 <= j <= i,
        i == 0 || (i <= s.len() && !vowel(s[i - 1])),
    ensures
        0 <= m <= nuclei_from(s, j).len(),
        nuclei_from(s, j) == nuclei_from(s, j).take(m) + nuclei_from(s, i),
        forall|k: int| 0 <= k < m ==> (#[trigger] nuclei_from(s, j)[k]).1 <= i,
    decreases i - j,
{
    let all = nuclei_from(s, j);
    if j == i {
        assert(all.take(0) + all =~= all);
        0
    } else if j >= s.len() {
        assert(all.take(0) + nuclei_from(s, i) =~= all);
        0
    } else if !vowel(s[j]) || glide_at(s, j) {
        let m = lemma_scan_reaches(s, j + 1, i);
        m
    } else {
        let next = if digraph_at(s, j) {
            j + 2
        } else {
            j + 1
        };
        let rest = nuclei_from(s, next);
        let m = lemma_scan_reaches(s, next, i);
        assert(all == seq![(j, next)] + rest);
        assert(all.take(m + 1) =~= seq![(j, next)] + rest.take(m));
        assert(all =~= all.take(m + 1) + nuclei_from(s, i));
        assert forall|k: int| 0 <= k < m + 1 implies (#[trigger] all[k]).1 <= i by {
            if k > 0 {
                assert(all[k] == rest[k - 1]);
            }
        }
        m + 1
    }
}

/// The five digraphs αι, ει, οι, ου, υι (in either case, the second letter
/// possibly accented) each form one two-letter nucleus when the first letter
/// is unaccented and the second has no diaeresis: the scan meeting the first
/// letter takes both, and in a word the digraph after a consonant (or at the
/// start) is one syllable.
pub proof fn lemma_digraphs_are_one_syllable(s: Seq<char>, i: int)
    requires
        0 <= i,
        i + 1 < s.len(),
        ({
            let (a, b) = (base_of(s[i]), base_of(s[i + 1]));
            ||| a == Some('α') && b == Some('ι')
            ||| a == Some('ε') && b == Some('ι')
            ||| a == Some('ο') && b == Some('ι')
            ||| a == Some('ο') && b == Some('υ')
            ||| a == Some('υ') && b == Some('ι')
        }),
        !accented(s[i]),
        !diaeresis(s[i + 1]),
    ensures
        nuclei_from(s, i)[0] == (i, i + 2),
        i == 0 || !vowel(s[i - 1]) ==> exists|k: int|
            0 <= k < syllables(s).len() && #[trigger] syllables(s)[k] == (i, i + 2),
{
    lemma_vowel_iff_base(s[i]);
    lemma_vowel_iff_base(s[i + 1]);
    assert(digraph_at(s, i));
    assert(nuclei_from(s, i) == seq![(i, i + 2)] + nuclei_from(s, i + 2));
    if i == 0 || !vowel(s[i - 1]) {
        let m = lemma_scan_reaches(s, 0, i);
        let all = nuclei_from(s, 0);
        assert(all.take(m).len() == m);
        assert(all[m] == nuclei_from(s, i)[0]);
        assert(syllables(s)[m] == (i, i + 2));
    }
}

/// Synizesis does not depend on which vowel follows: an unaccented ι without
/// diaeresis between a consonant and any vowel has no nucleus of its own, so
/// no syllable of the word contains it.
pub proof fn lemma_glide_has_no_syllable(s: Seq<char>, i: int)
    requires
        0 < i,
        i + 1 < s.len(),
        base_of(s[i]) == Some('ι'),
        !accented(s[i]),
        !diaeresis(s[i]),
        !vowel(s[i - 1]),
        vowel(s[i + 1]),
    ensures
        nuclei_from(s, i) == nuclei_from(s, i + 1),
        forall|k: int|
            0 <= k < syllables(s).len() ==> !((#[trigger] syllables(s)[k]).0 <= i < syllables(s)[k].1),
{
    lemma_vowel_iff_base(s[i]);
    assert(glide_at(s, i));
    assert(!digraph_at(s, i));
    let m = lemma_scan_reaches(s, 0, i);
    let all = nuclei_from(s, 0);
    lemma_nuclei_shape(s, i + 1);
    assert forall|k: int| 0 <= k < all.len() implies !((#[trigger] all[k]).0 <= i < all[k].1) by {
        if k >= m {
            assert(all[k] == nuclei_from(s, i + 1)[k - m]);
        }
    }
}

} // verus!
