//! Rendering counters as text for the diagnostic printers: a verified
//! decimal writer over ASCII bytes, turned into a `String` by one trusted
//! UTF-8 conversion.

use vstd::prelude::*;
use vstd::string::StringExecFns;

verus! {

/// The decimal digits of `x` as ASCII bytes, most significant first.
pub open spec fn dec_spec(x: nat) -> Seq<u8>
    decreases x,
{
    if x < 10 {
        seq![(48 + x) as u8]
    } else {
        dec_spec(x / 10).push((48 + x % 10) as u8)
    }
}

/// The decimal digits of `x` as characters.
pub open spec fn dec_chars(x: nat) -> Seq<char> {
    dec_spec(x).map_values(|b: u8| b as char)
}

/// Every byte written by `dec_spec` is an ASCII digit.
pub proof fn lemma_dec_spec_ascii(x: nat)
    ensures
        forall|p: int| 0 <= p < dec_spec(x).len() ==> 48 <= #[trigger] dec_spec(x)[p] < 58,
    decreases x,
{
    if x >= 10 {
        lemma_dec_spec_ascii(x / 10);
        assert forall|p: int| 0 <= p < dec_spec(x).len() implies 48 <= #[trigger] dec_spec(
            x,
        )[p] < 58 by {
            if p < dec_spec(x / 10).len() {
                assert(dec_spec(x)[p] == dec_spec(x / 10)[p]);
            }
        };
    }
}

/// Append the decimal rendering of `x` to `out`.
pub fn push_dec(out: &mut Vec<u8>, x: u64)
    ensures
        final(out)@ == old(out)@ + dec_spec(x as nat),
    decreases x,
{
    if x >= 10 {
        push_dec(out, x / 10);
        out.push(48 + (x % 10) as u8);
        proof {
            assert(final(out)@ =~= old(out)@ + dec_spec(x as nat));
        }
    } else {
        out.push(48 + x as u8);
        proof {
            assert(final(out)@ =~= old(out)@ + dec_spec(x as nat));
        }
    }
}

/// Relies on `String::from_utf8`: ASCII bytes are valid UTF-8 and decode one
/// character per byte.
#[verifier::external_body]
fn ascii_string(bytes: Vec<u8>) -> (r: String)
    requires
        forall|p: int| 0 <= p < bytes@.len() ==> bytes@[p] < 128,
    ensures
        r@ == bytes@.map_values(|b: u8| b as char),
{
    String::from_utf8(bytes).unwrap_or_default()
}

/// The decimal rendering of `x` as a `String`.
pub fn dec_string(x: u64) -> (r: String)
    ensures
        r@ == dec_chars(x as nat),
{
    let mut bytes: Vec<u8> = Vec::new();
    push_dec(&mut bytes, x);
    proof {
        lemma_dec_spec_ascii(x as nat);
        assert(bytes@ =~= dec_spec(x as nat));
    }
    ascii_string(bytes)
}

/// `label` followed by the decimal rendering of `v`.
pub fn label_count(label: &str, v: u64) -> (r: String)
    ensures
        r@ == label@ + dec_chars(v as nat),
{
    let mut s = <String as StringExecFns>::from_str(label);
    let num = dec_string(v);
    s.append(num.as_str());
    proof {
        assert(s@ =~= label@ + dec_chars(v as nat));
    }
    s
}

} // verus!
