//! Hexadecimal display of raw record bytes, spaced into groups of eight
//! digits for reading.

use vstd::prelude::*;

verus! {

/// The lowercase hexadecimal digit for `d`.
pub open spec fn spec_hex_digit(d: int) -> char {
    "0123456789abcdef"@[d]
}

/// The two-digit-per-byte lowercase hexadecimal spelling of `data`.
pub open spec fn spec_hex_of(data: Seq<u8>) -> Seq<char>
    decreases data.len(),
{
    if data.len() == 0 {
        Seq::empty()
    } else {
        spec_hex_of(data.drop_last()) + seq![
            spec_hex_digit(data.last() as int / 16),
            spec_hex_digit(data.last() as int % 16),
        ]
    }
}

/// Relies on `hex::encode`: two lowercase hexadecimal digits per input
/// byte, high nibble first, and nothing else.
#[verifier::external_body]
fn hex_encode(data: &Vec<u8>) -> (r: String)
    ensures
        r@ == spec_hex_of(data@),
{
    hex::encode(data.as_slice())
}

/// `s` with a space inserted before every eighth character.
pub open spec fn spec_spaced(s: Seq<char>) -> Seq<char>
    decreases s.len(),
{
    if s.len() <= 8 {
        s
    } else {
        s.take(8) + seq![' '] + spec_spaced(s.skip(8))
    }
}

/// Groups the characters of `s` from `from` on into spaced groups of eight.
fn spaced_groups(s: &str, from: usize) -> (r: String)
    requires
        from <= s@.len(),
    ensures
        r@ == spec_spaced(s@.skip(from as int)),
    decreases s@.len() - from,
{
    let len = s.unicode_len();
    if len - from <= 8 {
        let head = s.substring_char(from, len);
        proof {
            assert(head@ =~= s@.skip(from as int));
        }
        head.to_owned()
    } else {
        let head = s.substring_char(from, from + 8);
        let mut out = head.to_owned();
        out.append(" ");
        let tail = spaced_groups(s, from + 8);
        out.append(tail.as_str());
        proof {
            reveal_strlit(" ");
            assert(" "@ =~= seq![' ']);
            assert(s@.skip(from as int).take(8) =~= head@);
            assert(s@.skip(from as int).skip(8) =~= s@.skip(from + 8));
            assert(out@ =~= spec_spaced(s@.skip(from as int)));
        }
        out
    }
}

/// Spells `data` in lowercase hexadecimal, spaced into groups of eight
/// digits.
pub fn format_hex(data: &Vec<u8>) -> (r: String)
    ensures
        r@ == spec_spaced(spec_hex_of(data@)),
{
    let encoded = hex_encode(data);
    proof {
        assert(encoded@.skip(0) =~= encoded@);
    }
    spaced_groups(encoded.as_str(), 0)
}

} // verus!
