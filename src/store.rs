use vstd::prelude::*;
use crate::error::ObjectError;
use crate::kind::Kind;
use vstd::slice::slice_subrange;

verus! {

/// The lowercase hexadecimal digit of value `v`, for `0 <= v < 16`.
pub open spec fn hex_digit(v: int) -> char {
    seq!['0', '1', '2', '3', '4', '5', '6', '7', '8', '9', 'a', 'b', 'c', 'd', 'e', 'f'][v]
}

/// Two lowercase hexadecimal digits for each byte, high digit first.
pub open spec fn hex_text(b: Seq<u8>) -> Seq<char>
    decreases b.len(),
{
    if b.len() == 0 {
        Seq::empty()
    } else {
        seq![hex_digit(b[0] as int / 16), hex_digit(b[0] as int % 16)] + hex_text(b.drop_first())
    }
}

pub proof fn lemma_hex_text_append(a: Seq<u8>, b: Seq<u8>)
    ensures
        hex_text(a + b) == hex_text(a) + hex_text(b),
        hex_text(a).len() == 2 * a.len(),
    decreases a.len(),
{
    if a.len() == 0 {
        assert(a + b =~= b);
        assert(hex_text(a) + hex_text(b) =~= hex_text(b));
    } else {
        assert((a + b).drop_first() =~= a.drop_first() + b);
        lemma_hex_text_append(a.drop_first(), b);
        assert(hex_text(a + b) =~= hex_text(a) + hex_text(b));
    }
}

/// Relies on hex::encode: each byte becomes two lowercase hexadecimal
/// digits, high digit first.
#[verifier::external_body]
fn hex_encode(bytes: &[u8]) -> (r: String)
    ensures
        r@ == hex_text(bytes@),
{
    hex::encode(bytes)
}

/// The textual form of an id: 40 lowercase hexadecimal digits.
pub fn id_to_hex(id: &[u8; 20]) -> (r: String)
    ensures
        r@ == hex_text(id@),
        r@.len() == 40,
{
    proof {
        lemma_hex_text_append(id@, Seq::empty());
    }
    hex_encode(id)
}

/// Where an object is stored under the objects directory: a directory named
/// by the first two hexadecimal digits of its id, and a file named by the
/// other thirty-eight.
pub fn object_location(id: &[u8; 20]) -> (r: (String, String))
    ensures
        r.0@ == hex_text(id@).take(2),
        r.1@ == hex_text(id@).skip(2),
        r.0@.len() == 2,
        r.1@.len() == 38,
{
    let first = slice_subrange(id, 0, 1);
    let rest = slice_subrange(id, 1, 20);
    proof {
        assert(id@ =~= first@ + rest@);
        lemma_hex_text_append(first@, rest@);
        lemma_hex_text_append(rest@, Seq::empty());
    }
    (hex_encode(first), hex_encode(rest))
}

/// The value of a hexadecimal digit, in either case.
pub open spec fn hex_value(c: u8) -> Option<u8> {
    if 48 <= c <= 57 {
        Some((c - 48) as u8)
    } else if 97 <= c <= 102 {
        Some((c - 87) as u8)
    } else if 65 <= c <= 70 {
        Some((c - 55) as u8)
    } else {
        None
    }
}

/// `text` spells the bytes `b` in hexadecimal, two digits each.
pub open spec fn spells_bytes(text: Seq<u8>, b: Seq<u8>) -> bool {
    &&& text.len() == 2 * b.len()
    &&& forall|i: int| 0 <= i < text.len() ==> (#[trigger] hex_value(text[i])) is Some
    &&& forall|i: int| 0 <= i < b.len() ==> #[trigger] b[i] == hex_value(text[2 * i])->0 * 16
        + hex_value(text[2 * i + 1])->0
}

fn hex_digit_value(c: u8) -> (r: Option<u8>)
    ensures
        r == hex_value(c),
{
    if 48 <= c && c <= 57 {
        Some(c - 48)
    } else if 97 <= c && c <= 102 {
        Some(c - 87)
    } else if 65 <= c && c <= 70 {
        Some(c - 55)
    } else {
        None
    }
}

/// Reads an id from its textual form, 40 hexadecimal digits in either case.
pub fn parse_id(text: &[u8]) -> (r: Option<[u8; 20]>)
    ensures
        r is Some <==> text@.len() == 40 && forall|i: int| 0 <= i < 40 ==> (#[trigger] hex_value(
            text@[i],
        )) is Some,
        r matches Some(id) ==> spells_bytes(text@, id@),
{
    if text.len() != 40 {
        return None;
    }
    let mut id: [u8; 20] = [0u8; 20];
    let mut i: usize = 0;
    while i < 20
        invariant
            text@.len() == 40,
            i <= 20,
            id@.len() == 20,
            forall|k: int| 0 <= k < 2 * i ==> (#[trigger] hex_value(text@[k])) is Some,
            forall|k: int| 0 <= k < i ==> #[trigger] id@[k] == hex_value(text@[2 * k])->0 * 16
                + hex_value(text@[2 * k + 1])->0,
        decreases 20 - i,
    {
        let hi = match hex_digit_value(text[2 * i]) {
            Some(v) => v,
            None => {
                return None;
            },
        };
        let lo = match hex_digit_value(text[2 * i + 1]) {
            Some(v) => v,
            None => {
                return None;
            },
        };
        id[i] = hi * 16 + lo;
        proof {
            assert forall|k: int| 0 <= k < 2 * (i + 1) implies (#[trigger] hex_value(text@[k])) is Some by {
                if k == 2 * i || k == 2 * i + 1 {
                } else {
                    assert(k < 2 * i);
                }
            }
        }
        i = i + 1;
    }
    Some(id)
}

/// Admits only an object of the kind that an operation knows how to read.
pub fn expect_kind(actual: Kind, wanted: Kind) -> (r: Result<(), ObjectError>)
    ensures
        r is Ok <==> actual == wanted,
        r is Err ==> r == Err::<(), ObjectError>(ObjectError::UnsupportedKind),
{
    if actual == wanted {
        Ok(())
    } else {
        Err(ObjectError::UnsupportedKind)
    }
}

} // verus!
