use crate::bar::{models, BarModel, InclusionPolicy, PriceBar};
use crate::codec::{archive_bytes, encode, lemma_decode_encode, parse_archive, storable};
use crate::normalize::{dated, kept, lemma_kept_count, normalize, sorted_by_date};
use vstd::prelude::*;
use vstd::seq_lib::to_multiset_contains;
use vstd::string::StringExecFns;

verus! {

/// The address of a request: the endpoint's query for the daily series, then
/// the symbol, then the key. Neither is escaped.
pub open spec fn url_of(symbol: Seq<char>, api_key: Seq<char>) -> Seq<char> {
    "https://www.alphavantage.co/query?function=TIME_SERIES_DAILY&symbol="@ + symbol + "&apikey="@
        + api_key
}

/// The address to fetch for `symbol` with the credential `api_key`.
pub fn request_url(symbol: &str, api_key: &str) -> (url: String)
    ensures
        url@ == url_of(symbol@, api_key@),
{
    let mut url = "https://www.alphavantage.co/query?function=TIME_SERIES_DAILY&symbol=".to_owned();
    url.append(symbol);
    url.append("&apikey=");
    url.append(api_key);
    url
}

/// `sorted` is what goes into the archive for `bars`: the kept bars in
/// ascending order of date, those of one date in the order they came in.
pub open spec fn archives(bars: Seq<BarModel>, policy: InclusionPolicy, sorted: Seq<BarModel>) -> bool {
    &&& sorted_by_date(sorted)
    &&& sorted.to_multiset() == kept(bars, policy).to_multiset()
    &&& forall|d: Seq<char>| #[trigger] dated(sorted, d) == dated(kept(bars, policy), d)
}

/// Normalises `bars` under `policy` and encodes the result. Where every
/// number of `bars` is finite, the bytes read back as the normalised bars.
pub fn build_archive(bars: &Vec<PriceBar>, policy: InclusionPolicy) -> (out: Vec<u8>)
    ensures
        exists|sorted: Seq<BarModel>| #[trigger]
            archives(models(bars@), policy, sorted) && out@ == archive_bytes(sorted),
        (forall|i: int| 0 <= i < bars@.len() ==> storable(#[trigger] models(bars@)[i]))
            ==> (parse_archive(out@) matches Some(back) && archives(models(bars@), policy, back)),
{
    let sorted = normalize(bars, policy);
    let out = encode(&sorted);
    proof {
        let all = models(bars@);
        let s = models(sorted@);
        assert(archives(all, policy, s));
        if forall|i: int| 0 <= i < bars@.len() ==> storable(#[trigger] models(bars@)[i]) {
            assert forall|k: int| 0 <= k < s.len() implies storable(#[trigger] s[k]) by {
                to_multiset_contains(s, s[k]);
                assert(s.contains(s[k]));
                lemma_kept_count(all, policy, s[k]);
                to_multiset_contains(all, s[k]);
                let i = choose|i: int| 0 <= i < all.len() && all[i] == s[k];
                assert(storable(all[i]));
            };
            lemma_decode_encode(s);
        }
    }
    out
}

} // verus!
