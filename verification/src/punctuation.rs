//! Punctuation-attached index variants. A reader's word selection can include
//! adjacent punctuation in the string handed to the dictionary lookup, so
//! "λέξη," fails an exact lookup even though "λέξη" is indexed; this module
//! generates the punctuation-attached forms of one headword form.
use vstd::prelude::*;

verus! {

/// Marks that can trail a word: comma, period, ano teleia (Greek
/// "semicolon" point), Greek question mark, colon, closing
/// guillemet/paren/quotes, and the three dash forms.
pub const TRAILING: [&'static str; 12] = [
    ",",
    ".",
    "\u{0387}",
    "\u{037E}",
    ":",
    "\u{00BB}",
    ")",
    "\"",
    "'",
    "\u{2014}",
    "\u{2013}",
    "-",
];

/// Marks that can lead a word: opening guillemet/paren/quotes and the two
/// (non-hyphen) dash forms.
pub const LEADING: [&'static str; 6] = ["\u{00AB}", "(", "\"", "'", "\u{2014}", "\u{2013}"];

/// The variants of `form`, in order: `form` followed by each trailing mark,
/// then each leading mark followed by `form`.
pub open spec fn punctuation_variants(form: Seq<char>) -> Seq<Seq<char>> {
    Seq::new(
        18,
        |k: int|
            if k < 12 {
                form + TRAILING@[k]@
            } else {
                LEADING@[k - 12]@ + form
            },
    )
}

/// All `{form}{trailing}` and `{leading}{form}` combinations for one form.
pub fn variants_for(form: &str) -> (out: Vec<String>)
    ensures
        out@.len() == TRAILING@.len() + LEADING@.len(),
        forall|k: int| 0 <= k < out@.len() ==> (#[trigger] out@[k])@ == punctuation_variants(form@)[k],
{
    let mut out: Vec<String> = Vec::new();
    let mut i: usize = 0;
    while i < 12
        invariant
            i <= 12,
            out@.len() == i,
            forall|k: int| 0 <= k < i ==> (#[trigger] out@[k])@ == punctuation_variants(form@)[k],
        decreases 12 - i,
    {
        let mut s = String::from_str(form);
        s.append(TRAILING[i]);
        out.push(s);
        i = i + 1;
    }
    let mut j: usize = 0;
    while j < 6
        invariant
            j <= 6,
            out@.len() == 12 + j,
            forall|k: int| 0 <= k < 12 + j ==> (#[trigger] out@[k])@ == punctuation_variants(form@)[k],
        decreases 6 - j,
    {
        let mut s = String::from_str(LEADING[j]);
        s.append(form);
        out.push(s);
        j = j + 1;
    }
    out
}

} // verus!
