//! The materialized ranking view: the text served for the scoreboard.

use vstd::prelude::*;
use crate::rank_index::{RankEntry, RankIndex};
use crate::text::{decimal, push_decimal};

verus! {

/// What `serde_json` writes for a string: the JSON string literal, quotes
/// and escapes included.
pub uninterp spec fn json_quoted(s: Seq<char>) -> Seq<char>;

/// Relies on `serde_json::to_string` applied to a `str`: the JSON string
/// literal of `s`. A `str` is written with `serialize_str` into a `Vec<u8>`,
/// and neither step can fail.
#[verifier::external_body]
fn json_string(s: &str) -> (r: String)
    ensures
        r@ == json_quoted(s@),
{
    serde_json::to_string(s).unwrap_or_default()
}

/// The view while nobody is ranked.
pub const EMPTY_RANKING: &'static str = "<article><h2 style=\"text-align: center;\">No users yet!</h2></article>";

/// One entry as a JSON object with fields `username` and `score`.
pub open spec fn entry_text(e: (Seq<char>, u32)) -> Seq<char> {
    "{\"username\":"@ + json_quoted(e.0) + ",\"score\":"@ + decimal(e.1 as nat) + "}"@
}

/// The entries as JSON objects separated by commas.
pub open spec fn entries_text(s: Seq<(Seq<char>, u32)>) -> Seq<char>
    decreases s.len(),
{
    if s.len() == 0 {
        Seq::empty()
    } else if s.len() == 1 {
        entry_text(s[0])
    } else {
        entries_text(s.drop_last()) + ","@ + entry_text(s.last())
    }
}

/// The ranking view of a listing: the placeholder when it is empty, else a
/// JSON array of its entries in order.
pub open spec fn ranking_text(s: Seq<(Seq<char>, u32)>) -> Seq<char> {
    if s.len() == 0 {
        EMPTY_RANKING@
    } else {
        "["@ + entries_text(s) + "]"@
    }
}

fn push_entry(out: &mut String, e: &RankEntry)
    ensures
        final(out)@ == old(out)@ + entry_text(e@),
{
    out.append("{\"username\":");
    let q = json_string(e.username.as_str());
    out.append(q.as_str());
    out.append(",\"score\":");
    push_decimal(out, e.score as u64);
    out.append("}");
    assert(final(out)@ =~= old(out)@ + entry_text(e@));
}

/// Renders the ranking view of `index`.
pub fn render_ranking(index: &RankIndex) -> (r: String)
    ensures
        r@ == ranking_text(index@),
{
    let entries = index.entries();
    let ghost s = index@;
    if entries.len() == 0 {
        return String::from_str(EMPTY_RANKING);
    }
    let mut out = String::from_str("[");
    push_entry(&mut out, &entries[0]);
    proof {
        assert(s.take(1).drop_last() =~= Seq::<(Seq<char>, u32)>::empty());
        assert(entries_text(s.take(1)) == entry_text(s[0]));
    }
    let mut i: usize = 1;
    while i < entries.len()
        invariant
            1 <= i <= entries@.len(),
            entries@.map_values(|e: RankEntry| e@) == s,
            out@ == "["@ + entries_text(s.take(i as int)),
        decreases entries.len() - i,
    {
        out.append(",");
        push_entry(&mut out, &entries[i]);
        proof {
            assert(s.take(i + 1).drop_last() =~= s.take(i as int));
            assert(s.take(i + 1).last() == s[i as int]);
        }
        i = i + 1;
        assert(out@ =~= "["@ + entries_text(s.take(i as int)));
    }
    out.append("]");
    assert(s.take(i as int) =~= s);
    out
}

} // verus!
