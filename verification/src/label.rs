//! Labels of ensembles and services.

use vstd::prelude::*;
use vstd::slice::slice_subrange;
use vstd::string::*;
use vstd::utf8::{decode_utf8, valid_utf8};

verus! {

/// `String::push` appends one character.
pub assume_specification[ String::push ](s: &mut String, c: char)
    ensures
        final(s)@ == old(s)@.push(c),
;

/// Calls `std::str::from_utf8`: the bytes as text if they are valid UTF-8, and
/// nothing otherwise.
#[verifier::external_body]
fn utf8_text(bytes: &[u8]) -> (r: Option<String>)
    ensures
        r is Some <==> valid_utf8(bytes@),
        r matches Some(s) ==> s@ == decode_utf8(bytes@),
{
    std::str::from_utf8(bytes).ok().map(|s| s.to_string())
}

/// Each byte as the character with its number.
pub open spec fn latin1(bytes: Seq<u8>) -> Seq<char> {
    Seq::new(bytes.len(), |i: int| bytes[i] as char)
}

/// `s` without the spaces and NULs at its end.
pub open spec fn trimmed(s: Seq<char>) -> Seq<char>
    decreases s.len(),
{
    if s.len() > 0 && (s.last() == ' ' || s.last() == '\0') {
        trimmed(s.drop_last())
    } else {
        s
    }
}

/// The first sixteen bytes of a label field.
pub open spec fn label_field(payload: Seq<u8>) -> Seq<u8> {
    if payload.len() < 16 {
        payload
    } else {
        payload.take(16)
    }
}

/// The text of a label field: UTF-8 if it is valid, Latin-1 otherwise, without
/// padding.
pub open spec fn label_text(payload: Seq<u8>) -> Seq<char> {
    let raw = label_field(payload);
    trimmed(
        if valid_utf8(raw) {
            decode_utf8(raw)
        } else {
            latin1(raw)
        },
    )
}

fn latin1_text(bytes: &[u8]) -> (s: String)
    ensures
        s@ == latin1(bytes@),
{
    let mut s: String = String::new();
    let mut i: usize = 0;
    while i < bytes.len()
        invariant
            i <= bytes@.len(),
            s@ == latin1(bytes@.take(i as int)),
        decreases bytes@.len() - i,
    {
        s.push(bytes[i] as char);
        i += 1;
        assert(s@ =~= latin1(bytes@.take(i as int)));
    }
    assert(bytes@.take(bytes@.len() as int) =~= bytes@);
    s
}

/// Copies `s` without the spaces and NULs at its end.
pub fn trim_padding(s: &str) -> (t: String)
    ensures
        t@ == trimmed(s@),
{
    let mut n: usize = s.unicode_len();
    assert(s@.take(n as int) =~= s@);
    while n > 0
        invariant
            n <= s@.len(),
            trimmed(s@) == trimmed(s@.take(n as int)),
        ensures
            n <= s@.len(),
            trimmed(s@) == s@.take(n as int),
        decreases n,
    {
        let c: char = s.get_char(n - 1);
        if c != ' ' && c != '\0' {
            break;
        }
        assert(s@.take(n as int).drop_last() =~= s@.take(n - 1));
        n -= 1;
    }
    let mut t: String = String::new();
    let mut i: usize = 0;
    while i < n
        invariant
            i <= n <= s@.len(),
            t@ == s@.take(i as int),
        decreases n - i,
    {
        t.push(s.get_char(i));
        i += 1;
        assert(t@ =~= s@.take(i as int));
    }
    t
}

/// Decodes a label field.
pub fn decode_label(payload: &[u8]) -> (s: String)
    ensures
        s@ == label_text(payload@),
{
    let n: usize = if payload.len() < 16 {
        payload.len()
    } else {
        16
    };
    let raw: &[u8] = slice_subrange(payload, 0, n);
    assert(raw@ =~= label_field(payload@));
    let text: String = match utf8_text(raw) {
        Some(s) => s,
        None => latin1_text(raw),
    };
    trim_padding(text.as_str())
}

/// A decoded label does not end in a space or a NUL.
pub proof fn law_labels_are_trimmed(payload: Seq<u8>)
    ensures
        label_text(payload).len() > 0 ==> label_text(payload).last() != ' ' && label_text(
            payload,
        ).last() != '\0',
{
    let raw = label_field(payload);
    lemma_trimmed(
        if valid_utf8(raw) {
            decode_utf8(raw)
        } else {
            latin1(raw)
        },
    );
}

proof fn lemma_trimmed(s: Seq<char>)
    ensures
        trimmed(s).len() > 0 ==> trimmed(s).last() != ' ' && trimmed(s).last() != '\0',
    decreases s.len(),
{
    if s.len() > 0 && (s.last() == ' ' || s.last() == '\0') {
        lemma_trimmed(s.drop_last());
    }
}

/// Trimming takes away spaces and NULs at the end, all of them and nothing else.
pub proof fn law_trimming_takes_padding_only(s: Seq<char>)
    ensures
        trimmed(s).len() <= s.len(),
        s.take(trimmed(s).len() as int) == trimmed(s),
        forall|i: int|
            trimmed(s).len() <= i < s.len() ==> #[trigger] s[i] == ' ' || s[i] == '\0',
        trimmed(s).len() > 0 ==> trimmed(s).last() != ' ' && trimmed(s).last() != '\0',
    decreases s.len(),
{
    if s.len() > 0 && (s.last() == ' ' || s.last() == '\0') {
        let shorter = s.drop_last();
        law_trimming_takes_padding_only(shorter);
        let n = trimmed(s).len() as int;
        assert(s.take(n) =~= shorter.take(n));
        assert forall|i: int| n <= i < s.len() implies #[trigger] s[i] == ' ' || s[i] == '\0' by {
            if i < s.len() - 1 {
                assert(s[i] == shorter[i]);
            }
        }
    } else {
        assert(s.take(s.len() as int) =~= s);
    }
}

/// A label is the UTF-8 text of its first sixteen bytes, or, where they are not UTF-8,
/// the characters with the numbers of the bytes; without its padding.
pub proof fn law_labels_are_sixteen_bytes(field: Seq<u8>, rest: Seq<u8>)
    requires
        field.len() == 16 || rest.len() == 0,
        field.len() <= 16,
    ensures
        valid_utf8(field) ==> label_text(field + rest) == trimmed(decode_utf8(field)),
        !valid_utf8(field) ==> label_text(field + rest) == trimmed(
            Seq::new(field.len(), |i: int| field[i] as char),
        ),
{
    assert(label_field(field + rest) =~= field);
    assert(latin1(field) =~= Seq::new(field.len(), |i: int| field[i] as char));
}

} // verus!
