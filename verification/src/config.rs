//! The engine's settings, read from text: decimal thresholds and the comma-separated
//! list of stablecoins.

use vstd::prelude::*;
use vstd::string::StringSliceAdditionalSpecFns;
use vstd::utf8::{
    encode_utf8, encode_utf8_valid_utf8, is_char_boundary, is_char_boundary_iff_not_is_continuation_byte,
    is_char_boundary_start_end_of_seq, is_continuation_byte,
};
use crate::decimal::{decimal_from_text, parse_decimal, Decimal};

verus! {

/// The pieces joined with commas between them.
pub open spec fn comma_joined(pieces: Seq<Seq<u8>>) -> Seq<u8>
    decreases pieces.len(),
{
    if pieces.len() == 0 {
        Seq::empty()
    } else if pieces.len() == 1 {
        pieces[0]
    } else {
        comma_joined(pieces.drop_last()) + seq![44u8] + pieces.last()
    }
}

/// No comma in `b`.
pub open spec fn comma_free(b: Seq<u8>) -> bool {
    forall|j: int| 0 <= j < b.len() ==> b[j] != 44u8
}

/// The UTF-8 bytes of each text.
pub open spec fn utf8_pieces(v: Seq<String>) -> Seq<Seq<u8>> {
    v.map_values(|x: String| encode_utf8(x@))
}

proof fn lemma_joined_push(done: Seq<Seq<u8>>, piece: Seq<u8>, tail: Seq<u8>)
    ensures
        comma_joined(done.push(piece).push(tail)) == comma_joined(done.push(piece + seq![44u8] + tail)),
{
    let a = done.push(piece).push(tail);
    let m = piece + seq![44u8] + tail;
    let b = done.push(m);
    assert(a.drop_last() =~= done.push(piece));
    assert(a.last() == tail);
    assert(b.drop_last() =~= done);
    assert(b.last() == m);
    assert(comma_joined(a) == comma_joined(done.push(piece)) + seq![44u8] + tail);
    if done.len() == 0 {
        assert(comma_joined(done.push(piece)) == piece);
        assert(comma_joined(b) == m);
        assert(comma_joined(a) =~= m);
    } else {
        assert(done.push(piece).drop_last() =~= done);
        assert(comma_joined(done.push(piece)) == comma_joined(done) + seq![44u8] + piece);
        assert(comma_joined(b) == comma_joined(done) + seq![44u8] + m);
        assert(comma_joined(a) =~= comma_joined(b));
    }
}

/// The comma-separated items of `list`, in order, empty items kept (an empty list gives
/// one empty item).
pub fn split_commas(list: &str) -> (r: Vec<String>)
    ensures
        comma_joined(utf8_pieces(r@)) == list.spec_bytes(),
        r@.len() >= 1,
        forall|i: int| 0 <= i < r@.len() ==> comma_free(#[trigger] utf8_pieces(r@)[i]),
{
    let mut r: Vec<String> = Vec::new();
    let mut rest: &str = list;
    assert(utf8_pieces(r@).push(rest.spec_bytes()) =~= seq![rest.spec_bytes()]);
    loop
        invariant
            comma_joined(utf8_pieces(r@).push(rest.spec_bytes())) == list.spec_bytes(),
            forall|i: int| 0 <= i < r@.len() ==> comma_free(#[trigger] utf8_pieces(r@)[i]),
        decreases rest.spec_bytes().len(),
    {
        let bytes = rest.as_bytes();
        let mut k: usize = 0;
        while k < bytes.len() && bytes[k] != 44u8
            invariant
                bytes@ == rest.spec_bytes(),
                k <= bytes@.len(),
                forall|j: int| 0 <= j < k ==> bytes@[j] != 44u8,
            decreases bytes.len() - k,
        {
            k = k + 1;
        }
        proof {
            encode_utf8_valid_utf8(rest@);
            if k < bytes@.len() {
                is_char_boundary_iff_not_is_continuation_byte(rest.spec_bytes(), k as int);
                assert(!is_continuation_byte(bytes@[k as int]));
            } else {
                is_char_boundary_start_end_of_seq(rest.spec_bytes());
            }
        }
        let (piece, tail) = rest.split_at(k);
        let ghost before = r@;
        r.push(piece.to_string());
        proof {
            assert(r@.last()@ == piece@);
            assert(utf8_pieces(r@) =~= utf8_pieces(before).push(piece.spec_bytes()));
            assert(comma_free(piece.spec_bytes()));
        }
        if k == bytes.len() {
            proof {
                assert(piece.spec_bytes() =~= rest.spec_bytes());
            }
            return r;
        }
        proof {
            encode_utf8_valid_utf8(tail@);
            assert(tail.spec_bytes()[0] == 44u8);
            reveal_with_fuel(is_char_boundary, 2);
            assert(is_char_boundary(tail.spec_bytes(), 1));
        }
        let (_comma, next) = tail.split_at(1);
        proof {
            assert(rest.spec_bytes() =~= piece.spec_bytes() + seq![44u8] + next.spec_bytes());
            lemma_joined_push(utf8_pieces(before), piece.spec_bytes(), next.spec_bytes());
        }
        rest = next;
    }
}

/// The engine's settings.
#[derive(Debug)]
pub struct EngineSettings {
    /// The least profit, in percent, for which a plan is published.
    pub min_profit_perc: Decimal,
    /// How much of the stablecoin a pass around a triangle starts with.
    pub cycle_volume: Decimal,
    /// The fee taken by each order, as a fraction.
    pub fee_percent: Decimal,
    /// The stablecoins that triangles start from.
    pub stablecoins: Vec<String>,
}

/// The settings read from their texts; `None` where one of the three numbers does not
/// parse.
pub fn parse_engine_settings(
    min_profit_perc: &str,
    cycle_volume: &str,
    fee_percent: &str,
    stablecoins: &str,
) -> (r: Option<EngineSettings>)
    ensures
        r is Some <==> (decimal_from_text(min_profit_perc@) is Some && decimal_from_text(cycle_volume@) is Some
            && decimal_from_text(fee_percent@) is Some),
        r matches Some(c) ==> {
            &&& decimal_from_text(min_profit_perc@) == Some(c.min_profit_perc@)
            &&& decimal_from_text(cycle_volume@) == Some(c.cycle_volume@)
            &&& decimal_from_text(fee_percent@) == Some(c.fee_percent@)
            &&& comma_joined(utf8_pieces(c.stablecoins@)) == stablecoins.spec_bytes()
            &&& forall|i: int| 0 <= i < c.stablecoins@.len() ==> comma_free(#[trigger] utf8_pieces(c.stablecoins@)[i])
        },
{
    let min_profit_perc = parse_decimal(min_profit_perc)?;
    let cycle_volume = parse_decimal(cycle_volume)?;
    let fee_percent = parse_decimal(fee_percent)?;
    let stablecoins = split_commas(stablecoins);
    Some(EngineSettings { min_profit_perc, cycle_volume, fee_percent, stablecoins })
}

} // verus!
