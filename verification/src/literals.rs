//! Facts about the words that the grammar and the JSON form are written
//! with.

use vstd::prelude::*;
use vstd::string::StringSliceAdditionalSpecFns;
use vstd::utf8::{is_ascii_chars, is_ascii_chars_encode_utf8};
use crate::bytes::{is_space, lower_seq, NEWLINE};
use crate::registry::is_keyword_name;

verus! {

/// `criteria` and `_ensure` are different words.
pub proof fn lemma_criteria_is_not_ensure()
    ensures
        "criteria".spec_bytes() != "_ensure".spec_bytes(),
{
    reveal_strlit("criteria");
    reveal_strlit("_ensure");
    assert(is_ascii_chars("criteria"@));
    assert(is_ascii_chars("_ensure"@));
    is_ascii_chars_encode_utf8("criteria"@);
    is_ascii_chars_encode_utf8("_ensure"@);
}

/// `Present` and `Absent` are different words.
pub proof fn lemma_present_is_not_absent()
    ensures
        "Present".spec_bytes() != "Absent".spec_bytes(),
{
    reveal_strlit("Present");
    reveal_strlit("Absent");
    assert(is_ascii_chars("Present"@));
    assert(is_ascii_chars("Absent"@));
    is_ascii_chars_encode_utf8("Present"@);
    is_ascii_chars_encode_utf8("Absent"@);
}

/// `Match` is one word of five letters, and `match` is its lower case.
pub proof fn lemma_match_word()
    ensures
        "Match".spec_bytes().len() == 5,
        forall|i: int|
            0 <= i < 5 ==> !is_space(#[trigger] "Match".spec_bytes()[i]) && "Match".spec_bytes()[i]
                != NEWLINE && "Match".spec_bytes()[i] != 35,
        lower_seq("Match".spec_bytes()) == "match".spec_bytes(),
{
    reveal_strlit("Match");
    reveal_strlit("match");
    assert(is_ascii_chars("Match"@));
    assert(is_ascii_chars("match"@));
    is_ascii_chars_encode_utf8("Match"@);
    is_ascii_chars_encode_utf8("match"@);
    let a = "Match".spec_bytes();
    let b = "match".spec_bytes();
    assert(a[0] == 'M' as u8 && a[1] == 'a' as u8 && a[2] == 't' as u8 && a[3] == 'c' as u8
        && a[4] == 'h' as u8);
    assert(b[0] == 'm' as u8 && b[1] == 'a' as u8 && b[2] == 't' as u8 && b[3] == 'c' as u8
        && b[4] == 'h' as u8);
    assert(lower_seq(a) =~= b);
}

/// `_ensure` is no keyword name: it does not begin with a letter.
pub proof fn lemma_ensure_is_no_keyword()
    ensures
        !is_keyword_name("_ensure".spec_bytes()),
{
    reveal_strlit("_ensure");
    assert(is_ascii_chars("_ensure"@));
    is_ascii_chars_encode_utf8("_ensure"@);
    assert("_ensure".spec_bytes()[0] == '_' as u8);
}

} // verus!
