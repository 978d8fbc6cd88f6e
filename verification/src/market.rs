//! The market-data service's own logic: how the symbols are spread over websocket
//! connections, what each frame of a connection calls for, and how a depth message is
//! turned into the update that goes out on the market stream.

use vstd::prelude::*;
use vstd::utf8::{
    decode_utf8, encode_utf8_decode_utf8, is_ascii_chars, encode_utf8_valid_utf8, is_char_boundary_iff_not_is_continuation_byte,
    is_char_boundary_start_end_of_seq, is_continuation_byte,
};
use vstd::string::StringSliceAdditionalSpecFns;
use crate::decimal::Decimal;
use crate::math::unix_time_millis;
use crate::exchange::PairInfo;
use crate::messages::DepthUpdate;

verus! {

/// The texts of a sequence of strings.
pub open spec fn texts(v: Seq<String>) -> Seq<Seq<char>> {
    v.map_values(|x: String| x@)
}

/// The texts of each group of a sequence of groups of strings.
pub open spec fn grouped_texts(v: Seq<Vec<String>>) -> Seq<Seq<Seq<char>>> {
    v.map_values(|g: Vec<String>| texts(g@))
}

/// `s` cut into consecutive groups of `per` items, the last group holding the rest; no
/// group at all where `per` is zero.
pub open spec fn chunked<T>(s: Seq<T>, per: nat) -> Seq<Seq<T>>
    decreases s.len(),
{
    if per == 0 || s.len() == 0 {
        Seq::empty()
    } else if s.len() <= per {
        seq![s]
    } else {
        seq![s.take(per as int)] + chunked(s.skip(per as int), per)
    }
}

/// The groups concatenated in order.
pub open spec fn flattened<T>(groups: Seq<Seq<T>>) -> Seq<T>
    decreases groups.len(),
{
    if groups.len() == 0 {
        Seq::empty()
    } else {
        groups[0] + flattened(groups.drop_first())
    }
}

proof fn lemma_chunked_step<T>(s: Seq<T>, per: nat, i: int)
    requires
        per > 0,
        0 <= i < s.len(),
    ensures
        chunked(s.skip(i), per) == seq![s.subrange(i, if i + per < s.len() { i + per } else { s.len() as int })]
            + chunked(s.skip(if i + per < s.len() { i + per } else { s.len() as int }), per),
{
    let t = s.skip(i);
    if i + per < s.len() {
        assert(t.take(per as int) =~= s.subrange(i, i + per));
        assert(t.skip(per as int) =~= s.skip(i + per));
    } else {
        assert(t =~= s.subrange(i, s.len() as int));
        assert(s.skip(s.len() as int) =~= Seq::<T>::empty());
        assert(chunked(s.skip(s.len() as int), per) =~= Seq::<Seq<T>>::empty());
    }
}

/// The symbols spread over connections of `per` streams each, in order: as many full
/// groups as there are, then the rest; none where `per` is zero.
pub fn chunk_symbols(symbols: &Vec<String>, per: usize) -> (r: Vec<Vec<String>>)
    ensures
        grouped_texts(r@) == chunked(texts(symbols@), per as nat),
{
    let mut r: Vec<Vec<String>> = Vec::new();
    if per == 0 {
        assert(grouped_texts(r@) =~= chunked(texts(symbols@), per as nat));
        return r;
    }
    let ghost s = texts(symbols@);
    let mut i: usize = 0;
    assert(s.skip(0) =~= s);
    while i < symbols.len()
        invariant
            per > 0,
            s == texts(symbols@),
            i <= symbols.len(),
            grouped_texts(r@) + chunked(s.skip(i as int), per as nat) == chunked(s, per as nat),
        decreases symbols.len() - i,
    {
        let end: usize = if per < symbols.len() - i {
            i + per
        } else {
            symbols.len()
        };
        let mut group: Vec<String> = Vec::new();
        let mut j: usize = i;
        while j < end
            invariant
                i <= j <= end <= symbols.len(),
                texts(group@) == s.subrange(i as int, j as int),
                s == texts(symbols@),
            decreases end - j,
        {
            let item = symbols[j].clone();
            assert(item@ == s[j as int]);
            let ghost before = group@;
            group.push(item);
            j = j + 1;
            assert(texts(group@) =~= texts(before).push(item@));
            assert(texts(group@) =~= s.subrange(i as int, j as int));
        }
        proof {
            lemma_chunked_step(s, per as nat, i as int);
            assert(grouped_texts(r@.push(group)) =~= grouped_texts(r@).push(texts(group@)));
            assert(grouped_texts(r@).push(texts(group@)) + chunked(s.skip(end as int), per as nat)
                =~= grouped_texts(r@) + (seq![texts(group@)] + chunked(s.skip(end as int), per as nat)));
        }
        r.push(group);
        i = end;
    }
    assert(s.skip(i as int) =~= Seq::<Seq<char>>::empty());
    assert(grouped_texts(r@) + Seq::<Seq<Seq<char>>>::empty() =~= grouped_texts(r@));
    r
}

/// Cutting into groups loses and reorders nothing: the groups, concatenated, give the
/// sequence back.
pub proof fn lemma_chunked_flattens<T>(s: Seq<T>, per: nat)
    requires
        per > 0,
    ensures
        flattened(chunked(s, per)) == s,
    decreases s.len(),
{
    if s.len() == 0 {
        assert(flattened(chunked(s, per)) =~= s);
    } else if s.len() <= per {
        assert(chunked(s, per).drop_first() =~= Seq::<Seq<T>>::empty());
        assert(flattened(Seq::<Seq<T>>::empty()) =~= Seq::<T>::empty());
        assert(flattened(chunked(s, per)) =~= s);
    } else {
        lemma_chunked_flattens(s.skip(per as int), per);
        assert(chunked(s, per).drop_first() =~= chunked(s.skip(per as int), per));
        assert(s.take(per as int) + s.skip(per as int) =~= s);
    }
}

/// Every group holds between one and `per` items, all but the last exactly `per`.
pub proof fn lemma_chunked_sizes<T>(s: Seq<T>, per: nat)
    requires
        per > 0,
    ensures
        forall|k: int| 0 <= k < chunked(s, per).len() ==> 1 <= #[trigger] chunked(s, per)[k].len() <= per,
        forall|k: int| 0 <= k < chunked(s, per).len() - 1 ==> #[trigger] chunked(s, per)[k].len() == per,
    decreases s.len(),
{
    if s.len() > per {
        lemma_chunked_sizes(s.skip(per as int), per);
        let rest = chunked(s.skip(per as int), per);
        assert forall|k: int| 0 <= k < chunked(s, per).len() implies 1 <= #[trigger] chunked(s, per)[k].len() <= per by {
            if k > 0 {
                assert(chunked(s, per)[k] == rest[k - 1]);
            }
        }
        assert forall|k: int| 0 <= k < chunked(s, per).len() - 1 implies #[trigger] chunked(s, per)[k].len() == per by {
            if k > 0 {
                assert(chunked(s, per)[k] == rest[k - 1]);
            }
        }
    }
}

/// `k` is where the symbol part of a stream name ends: the first `@`, or the end.
pub open spec fn first_at(bytes: Seq<u8>, k: int) -> bool {
    &&& 0 <= k <= bytes.len()
    &&& forall|j: int| 0 <= j < k ==> bytes[j] != 64u8
    &&& k < bytes.len() ==> bytes[k] == 64u8
}

/// What `str::to_uppercase` gives for a text.
pub uninterp spec fn uppercase(s: Seq<char>) -> Seq<char>;

/// An ASCII character in upper case: `a`..`z` become `A`..`Z`, the rest stay.
pub open spec fn ascii_upper(c: char) -> char {
    if 'a' <= c && c <= 'z' {
        ((c as int) - 32) as char
    } else {
        c
    }
}

/// `str::to_uppercase`: the text with every character mapped to its Unicode uppercase.
/// The mapping in general is the Unicode tables, and is named, not stated; on ASCII text it
/// maps each letter `a`..`z` to `A`..`Z` and keeps every other character.
#[verifier::external_body]
fn to_uppercase(s: &str) -> (r: String)
    ensures
        r@ == uppercase(s@),
        is_ascii_chars(s@) ==> r@ == s@.map_values(|c: char| ascii_upper(c)),
{
    s.to_uppercase()
}

/// The symbol of a stream name such as `btcusdt@depth20@100ms`: the part before the first
/// `@`, in upper case.
pub fn stream_symbol(stream: &str) -> (r: String)
    ensures
        exists|k: int|
            first_at(stream.spec_bytes(), k) && r@ == uppercase(
                decode_utf8(stream.spec_bytes().subrange(0, k)),
            ) && (is_ascii_chars(decode_utf8(stream.spec_bytes().subrange(0, k))) ==> r@ == decode_utf8(
                stream.spec_bytes().subrange(0, k),
            ).map_values(|c: char| ascii_upper(c))),
{
    let bytes = stream.as_bytes();
    let mut k: usize = 0;
    while k < bytes.len() && bytes[k] != 64u8
        invariant
            bytes@ == stream.spec_bytes(),
            k <= bytes@.len(),
            forall|j: int| 0 <= j < k ==> bytes@[j] != 64u8,
        decreases bytes.len() - k,
    {
        k = k + 1;
    }
    proof {
        encode_utf8_valid_utf8(stream@);
        if k < bytes@.len() {
            is_char_boundary_iff_not_is_continuation_byte(stream.spec_bytes(), k as int);
            assert(!is_continuation_byte(bytes@[k as int]));
        } else {
            is_char_boundary_start_end_of_seq(stream.spec_bytes());
        }
    }
    let (head, _rest) = stream.split_at(k);
    proof {
        encode_utf8_decode_utf8(head@);
        assert(first_at(stream.spec_bytes(), k as int));
    }
    to_uppercase(head)
}

/// What `str::to_lowercase` gives for a text.
pub uninterp spec fn lowercase(s: Seq<char>) -> Seq<char>;

/// An ASCII character in lower case: `A`..`Z` become `a`..`z`, the rest stay.
pub open spec fn ascii_lower(c: char) -> char {
    if 'A' <= c && c <= 'Z' {
        ((c as int) + 32) as char
    } else {
        c
    }
}

/// `str::to_lowercase`: the text with every character mapped to its Unicode lowercase.
/// The mapping in general is the Unicode tables, and is named, not stated; on ASCII text it
/// maps each letter `A`..`Z` to `a`..`z` and keeps every other character.
#[verifier::external_body]
fn to_lowercase(s: &str) -> (r: String)
    ensures
        r@ == lowercase(s@),
        is_ascii_chars(s@) ==> r@ == s@.map_values(|c: char| ascii_lower(c)),
{
    s.to_lowercase()
}

/// The symbols of the pairs in lower case, in order: the names the depth streams are
/// subscribed under.
pub fn lowercase_symbols(pairs: &Vec<PairInfo>) -> (r: Vec<String>)
    ensures
        texts(r@) == pairs@.map_values(|p: PairInfo| lowercase(p.symbol@)),
{
    let mut r: Vec<String> = Vec::new();
    let mut i: usize = 0;
    while i < pairs.len()
        invariant
            i <= pairs.len(),
            texts(r@) == pairs@.take(i as int).map_values(|p: PairInfo| lowercase(p.symbol@)),
        decreases pairs.len() - i,
    {
        let ghost before = r@;
        let low = to_lowercase(pairs[i].symbol.as_str());
        r.push(low);
        assert(texts(r@) =~= texts(before).push(low@));
        assert(pairs@.take(i + 1).map_values(|p: PairInfo| lowercase(p.symbol@)) =~= pairs@.take(
            i as int,
        ).map_values(|p: PairInfo| lowercase(p.symbol@)).push(lowercase(pairs@[i as int].symbol@)));
        i = i + 1;
    }
    assert(pairs@.take(pairs.len() as int) =~= pairs@);
    r
}

/// The update published for a depth message on `stream`, stamped `now_millis` (the
/// milliseconds since the Unix epoch, cut to 64 bits); `None` where the clock reads before
/// the epoch.
pub fn depth_update_at(
    stream: &str,
    bids: Vec<[Decimal; 2]>,
    asks: Vec<[Decimal; 2]>,
    now_millis: Option<u128>,
) -> (r: Option<DepthUpdate>)
    ensures
        now_millis is None ==> r is None,
        now_millis matches Some(ms) ==> r matches Some(u) && u.bid_levels@ == bids@ && u.ask_levels@
            == asks@ && u.timestamp == ms as u64 && exists|k: int|
            first_at(stream.spec_bytes(), k) && u.symbol@ == uppercase(
                decode_utf8(stream.spec_bytes().subrange(0, k)),
            ) && (is_ascii_chars(decode_utf8(stream.spec_bytes().subrange(0, k))) ==> u.symbol@
                == decode_utf8(stream.spec_bytes().subrange(0, k)).map_values(|c: char| ascii_upper(c))),
{
    let symbol = stream_symbol(stream);
    match now_millis {
        Some(ms) => Some(DepthUpdate { symbol, bid_levels: bids, ask_levels: asks, timestamp: ms as u64 }),
        None => None,
    }
}

/// The update published for a depth message on `stream`, stamped with the current time.
pub fn depth_update_now(stream: &str, bids: Vec<[Decimal; 2]>, asks: Vec<[Decimal; 2]>) -> (r: Option<DepthUpdate>)
    ensures
        r matches Some(u) ==> u.bid_levels@ == bids@ && u.ask_levels@ == asks@ && exists|k: int|
            first_at(stream.spec_bytes(), k) && u.symbol@ == uppercase(
                decode_utf8(stream.spec_bytes().subrange(0, k)),
            ) && (is_ascii_chars(decode_utf8(stream.spec_bytes().subrange(0, k))) ==> u.symbol@
                == decode_utf8(stream.spec_bytes().subrange(0, k)).map_values(|c: char| ascii_upper(c))),
{
    let now = unix_time_millis();
    depth_update_at(stream, bids, asks, now)
}

/// What a websocket connection received.
#[derive(Clone, Copy, Debug, PartialEq, Eq, Structural)]
pub enum WsFrame {
    /// A text frame, which carries depth messages.
    Text,
    /// A ping.
    Ping,
    /// Any other frame.
    Other,
    /// The connection failed.
    Failed,
    /// The stream ended.
    Closed,
}

/// What a connection does with a frame.
#[derive(Clone, Copy, Debug, PartialEq, Eq, Structural)]
pub enum WsReaction {
    /// Read the text as a depth message and publish it where it is one.
    Publish,
    /// Answer with a pong that carries the ping's payload.
    Pong,
    /// Drop the connection: it sent a frame of a kind it should not send.
    FailUnexpected,
    /// Drop the connection: it failed.
    FailError,
    /// Nothing to do: the stream ended.
    Ignore,
}

/// Text is published, pings are answered, the end of the stream is let be, and anything
/// else fails the connection (which is then opened again).
pub fn ws_reaction(frame: WsFrame) -> (r: WsReaction)
    ensures
        r == (match frame {
            WsFrame::Text => WsReaction::Publish,
            WsFrame::Ping => WsReaction::Pong,
            WsFrame::Other => WsReaction::FailUnexpected,
            WsFrame::Failed => WsReaction::FailError,
            WsFrame::Closed => WsReaction::Ignore,
        }),
{
    match frame {
        WsFrame::Text => WsReaction::Publish,
        WsFrame::Ping => WsReaction::Pong,
        WsFrame::Other => WsReaction::FailUnexpected,
        WsFrame::Failed => WsReaction::FailError,
        WsFrame::Closed => WsReaction::Ignore,
    }
}

} // verus!
