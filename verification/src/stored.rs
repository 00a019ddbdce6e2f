//! The value that is read from the attribute store, as a mark string.

use crate::marks::{mark_key, EMUTRAMP, MPROTECT, PAGEEXEC, RANDMMAP, SEGMEXEC};
use crate::reconcile::is_canonical;
use vstd::prelude::*;
use vstd::utf8::{decode_utf8, valid_utf8};

verus! {

/// The mark string that stands for a file without a stored value: every mark
/// enabled.
pub open spec fn default_marks() -> Seq<char> {
    seq![PAGEEXEC, EMUTRAMP, MPROTECT, RANDMMAP, SEGMEXEC]
}

/// The mark string that a read from the store stands for: the text that the
/// bytes encode, and the default where nothing was read or the bytes are not
/// UTF-8.
pub open spec fn value_of(stored: Option<Vec<u8>>) -> Seq<char> {
    match stored {
        Some(bytes) => if valid_utf8(bytes@) {
            decode_utf8(bytes@)
        } else {
            default_marks()
        },
        None => default_marks(),
    }
}

/// Std's `String::from_utf8`: as documented, it succeeds exactly on bytes that
/// are valid UTF-8, and the string it gives is the text that they encode.
#[verifier::external_body]
fn decode(bytes: Vec<u8>) -> (text: Option<String>)
    ensures
        text is Some <==> valid_utf8(bytes@),
        text matches Some(t) ==> t@ == decode_utf8(bytes@),
{
    String::from_utf8(bytes).ok()
}

/// Turns what was read from the store into the current mark string.
pub fn get_value(stored: Option<Vec<u8>>) -> (current: String)
    ensures
        current@ == value_of(stored),
{
    proof {
        reveal_strlit("PEMRS");
        assert("PEMRS"@ =~= default_marks());
    }
    match stored {
        Some(bytes) => match decode(bytes) {
            Some(text) => text,
            None => "PEMRS".to_owned(),
        },
        None => "PEMRS".to_owned(),
    }
}

/// The default mark string is canonical.
pub proof fn lemma_default_canonical()
    ensures
        is_canonical(default_marks()),
{
    let t = default_marks();
    assert(mark_key(t[0]) == mark_key(PAGEEXEC));
    assert(mark_key(t[1]) == mark_key(EMUTRAMP));
    assert(mark_key(t[2]) == mark_key(MPROTECT));
    assert(mark_key(t[3]) == mark_key(RANDMMAP));
    assert(mark_key(t[4]) == mark_key(SEGMEXEC));
}

} // verus!
