//! Linear models of the return over the next second.
use crate::error::Error;
use crate::features::{all_finite, asset_names, asset_suffixes, assets_names, cross_names, feature_names, finite_all, names};
use crate::number::{empty_sum, is_positive, lemma_total_push, positive, total, zero, Real};
use crate::text::{all_hex, before_char, char_from, find_text, is_hex, lemma_place, place_of, prefix_before, same_text, same_texts, texts};
use vstd::prelude::*;

verus! {

/// A ridge model of one asset's return, with the normalization of its inputs and what it was
/// trained on.
#[derive(Clone, Debug)]
pub struct Model<R> {
    pub version: u32,
    pub symbol: String,
    pub features: Vec<String>,
    pub mean: Vec<R>,
    pub scale: Vec<R>,
    pub coefficients: Vec<R>,
    pub intercept: R,
    pub horizon_ms: u64,
    pub trained_through_ns: u64,
    pub selected_through_ns: u64,
    pub dataset_sha256: String,
    pub entry_buffer_bps: R,
    pub alpha: R,
}

/// The asset that a feature belongs to, if it belongs to one asset alone.
pub open spec fn owner(feature: Seq<char>) -> Option<Seq<char>> {
    match before_char(feature, '.') {
        Some(p) => if p == "BTC_minus_ETH"@ {
            None
        } else {
            Some(p)
        },
        None => None,
    }
}

/// The distinct assets that a list of features belongs to, in first-seen order.
pub open spec fn owners(features: Seq<Seq<char>>) -> Seq<Seq<char>>
    decreases features.len(),
{
    if features.len() == 0 {
        Seq::empty()
    } else {
        let seen = owners(features.drop_last());
        match owner(features.last()) {
            Some(p) => if seen.contains(p) {
                seen
            } else {
                seen.push(p)
            },
            None => seen,
        }
    }
}

/// Whether all numbers are finite and above zero.
pub open spec fn all_positive<R: Real>(s: Seq<R>) -> bool {
    forall|i: int| 0 <= i < s.len() ==> (#[trigger] s[i]).spec_is_finite() && is_positive(s[i])
}

fn positive_all<R: Real>(v: &Vec<R>) -> (r: bool)
    ensures
        r == all_positive(v@),
{
    for i in 0..v.len()
        invariant
            forall|k: int|
                0 <= k < i ==> (#[trigger] v@[k]).spec_is_finite() && is_positive(v@[k]),
    {
        if !v[i].is_finite() || !positive(v[i]) {
            assert(!v@[i as int].spec_is_finite() || !is_positive(v@[i as int]));
            return false;
        }
    }
    true
}

/// Whether a number is finite and not below zero.
pub open spec fn is_nonnegative<R: Real>(x: R) -> bool {
    x.spec_is_finite() && zero::<R>().spec_within(x)
}

/// The terms of a prediction: each input normalized and weighed. Inputs without a parameter, and
/// parameters without an input, are left out.
pub open spec fn terms<R: Real>(x: Seq<R>, mean: Seq<R>, scale: Seq<R>, weights: Seq<R>) -> Seq<R> {
    Seq::new(
        shortest(x.len(), mean.len(), scale.len(), weights.len()),
        |i: int| x[i].spec_minus(mean[i]).spec_over(scale[i]).spec_times(weights[i]),
    )
}

/// The smallest of four lengths.
pub open spec fn shortest(a: nat, b: nat, c: nat, d: nat) -> nat {
    let ab = if a < b {
        a
    } else {
        b
    };
    let cd = if c < d {
        c
    } else {
        d
    };
    if ab < cd {
        ab
    } else {
        cd
    }
}

impl<R: Real> Model<R> {
    /// Why the model is refused for a venue's symbols, if it is.
    pub open spec fn fault(self, symbols: Seq<Seq<char>>) -> Option<Error> {
        let n = feature_names(symbols);
        if !(self.version == 1 && self.horizon_ms == 1000) {
            Some(Error::UnsupportedModelContract)
        } else if place_of(symbols, self.symbol@) is None {
            Some(Error::UnsupportedModelSymbol)
        } else if !(texts(self.features@) == n && self.mean.len() == n.len() && self.scale.len()
            == n.len() && self.coefficients.len() == n.len()) {
            Some(Error::FeatureSchemaMismatch)
        } else if !(all_finite(self.mean@) && all_finite(self.coefficients@) && all_positive(
            self.scale@,
        )) {
            Some(Error::NonfiniteModel)
        } else if !(self.intercept.spec_is_finite() && is_nonnegative(self.alpha)
            && is_nonnegative(self.entry_buffer_bps)) {
            Some(Error::InvalidModelParameter)
        } else if !(self.selected_through_ns >= self.trained_through_ns && is_hex(
            self.dataset_sha256@,
            64,
        )) {
            Some(Error::InvalidProvenance)
        } else {
            None
        }
    }

    /// The predicted return in basis points.
    pub open spec fn prediction(self, x: Seq<R>) -> R {
        self.intercept.spec_plus(
            total(terms(x, self.mean@, self.scale@, self.coefficients@)),
        )
    }

    /// The distinct per-asset prefixes this model's own feature vector was built from,
    /// in first-seen order (e.g. `["BTCUSDT", "ETHUSDT"]`). Used to self-validate a
    /// model when no venue configuration is available.
    pub fn asset_symbols(&self) -> (r: Vec<String>)
        ensures
            texts(r@) == owners(texts(self.features@)),
    {
        let mut out: Vec<String> = Vec::new();
        let mut i: usize = 0;
        assert(texts(out@) =~= owners(texts(self.features@).take(0)));
        while i < self.features.len()
            invariant
                i <= self.features.len(),
                texts(out@) == owners(texts(self.features@).take(i as int)),
            decreases self.features.len() - i,
        {
            proof {
                let next = texts(self.features@).take(i + 1);
                assert(next.drop_last() =~= texts(self.features@).take(i as int));
                assert(next.last() == self.features@[i as int]@);
            }
            if let Some(prefix) = prefix_before(self.features[i].as_str(), '.') {
                if !same_text(prefix.as_str(), "BTC_minus_ETH") {
                    let ghost seen = texts(out@);
                    proof {
                        lemma_place(seen, prefix@, 0);
                        if let Some(k) = place_of(seen, prefix@) {
                            assert(seen[k] == prefix@);
                        }
                    }
                    if find_text(out.as_slice(), prefix.as_str()).is_none() {
                        out.push(prefix);
                        assert(texts(out@) =~= seen.push(prefix@));
                    }
                }
            }
            i = i + 1;
        }
        assert(texts(self.features@).take(self.features@.len() as int) =~= texts(self.features@));
        out
    }

    /// Checks the model against a venue's symbols.
    pub fn validate(&self, symbols: &[String]) -> (r: Result<(), Error>)
        ensures
            match self.fault(texts(symbols@)) {
                Some(fault) => r == Err::<(), Error>(fault),
                None => r == Ok::<(), Error>(()),
            },
    {
        let n = names(symbols);
        assert(texts(n@).len() == n@.len());
        if !(self.version == 1 && self.horizon_ms == 1000) {
            return Err(Error::UnsupportedModelContract);
        }
        if find_text(symbols, self.symbol.as_str()).is_none() {
            return Err(Error::UnsupportedModelSymbol);
        }
        if !(same_texts(&self.features, &n) && self.mean.len() == n.len() && self.scale.len()
            == n.len() && self.coefficients.len() == n.len()) {
            return Err(Error::FeatureSchemaMismatch);
        }
        if !(finite_all(&self.mean) && finite_all(&self.coefficients) && positive_all(
            &self.scale,
        )) {
            return Err(Error::NonfiniteModel);
        }
        if !(self.intercept.is_finite() && self.alpha.is_finite() && R::from_i64(0).within(
            self.alpha,
        ) && self.entry_buffer_bps.is_finite() && R::from_i64(0).within(self.entry_buffer_bps)) {
            return Err(Error::InvalidModelParameter);
        }
        if !(self.selected_through_ns >= self.trained_through_ns && all_hex(
            self.dataset_sha256.as_str(),
            64,
        )) {
            return Err(Error::InvalidProvenance);
        }
        Ok(())
    }

    /// The predicted return in basis points.
    pub fn predict(&self, x: &[R]) -> (r: R)
        ensures
            r == self.prediction(x@),
    {
        let mut sum: R = empty_sum();
        let mut i: usize = 0;
        let ghost all = terms(x@, self.mean@, self.scale@, self.coefficients@);
        assert(all.take(0) =~= Seq::<R>::empty());
        while i < x.len() && i < self.mean.len() && i < self.scale.len() && i
            < self.coefficients.len()
            invariant
                all == terms(x@, self.mean@, self.scale@, self.coefficients@),
                i <= all.len(),
                sum == total(all.take(i as int)),
            decreases x.len() - i,
        {
            let term = x[i].minus(self.mean[i]).over(self.scale[i]).times(self.coefficients[i]);
            proof {
                assert(all.take(i + 1) =~= all.take(i as int).push(term));
                lemma_total_push(all.take(i as int), term);
            }
            sum = sum.plus(term);
            i = i + 1;
        }
        assert(all.take(i as int) =~= all);
        self.intercept.plus(sum)
    }
}

/// Whether a symbol can stand before the dot of a feature name.
pub open spec fn is_plain_symbol(symbol: Seq<char>) -> bool {
    symbol != "BTC_minus_ETH"@ && forall|i: int| 0 <= i < symbol.len() ==> symbol[i] != '.'
}

proof fn lemma_char_skips(text: Seq<char>, c: char, i: int, k: int)
    requires
        0 <= i <= k < text.len(),
        text[k] == c,
        forall|j: int| i <= j < k ==> text[j] != c,
    ensures
        char_from(text, c, i) == Some(k),
    decreases k - i,
{
    if i < k {
        lemma_char_skips(text, c, i + 1, k);
    }
}

/// The owner of a feature is the symbol that stands before its dot.
proof fn lemma_owner(symbol: Seq<char>, suffix: Seq<char>)
    requires
        suffix.len() > 0,
        suffix[0] == '.',
        forall|i: int| 0 <= i < symbol.len() ==> symbol[i] != '.',
    ensures
        before_char(symbol + suffix, '.') == Some(symbol),
{
    let text = symbol + suffix;
    assert(text[symbol.len() as int] == '.');
    lemma_char_skips(text, '.', 0, symbol.len() as int);
    assert(text.take(symbol.len() as int) =~= symbol);
}

proof fn lemma_suffixes_dotted()
    ensures
        forall|i: int|
            0 <= i < 17 ==> (#[trigger] asset_suffixes()[i]).len() > 0 && asset_suffixes()[i][0]
                == '.',
{
    reveal_strlit(".spread_bps");
    reveal_strlit(".microprice_bps");
    reveal_strlit(".imbalance_1");
    reveal_strlit(".imbalance_5");
    reveal_strlit(".imbalance_10");
    reveal_strlit(".ofi_100ms");
    reveal_strlit(".trade_flow_100ms");
    reveal_strlit(".return_bps_100ms");
    reveal_strlit(".volatility_bps_100ms");
    reveal_strlit(".ofi_1000ms");
    reveal_strlit(".trade_flow_1000ms");
    reveal_strlit(".return_bps_1000ms");
    reveal_strlit(".volatility_bps_1000ms");
    reveal_strlit(".ofi_5000ms");
    reveal_strlit(".trade_flow_5000ms");
    reveal_strlit(".return_bps_5000ms");
    reveal_strlit(".volatility_bps_5000ms");
}

/// The features of one more asset add that asset.
proof fn lemma_owners_asset(before: Seq<Seq<char>>, symbol: Seq<char>, n: int)
    requires
        0 <= n <= 17,
        is_plain_symbol(symbol),
        !owners(before).contains(symbol),
    ensures
        owners(before + asset_names(symbol).take(n)) == if n == 0 {
            owners(before)
        } else {
            owners(before).push(symbol)
        },
    decreases n,
{
    let all = before + asset_names(symbol).take(n);
    if n == 0 {
        assert(all =~= before);
    } else {
        lemma_owners_asset(before, symbol, n - 1);
        assert(all.drop_last() =~= before + asset_names(symbol).take(n - 1));
        assert(all.last() == symbol + asset_suffixes()[n - 1]);
        lemma_suffixes_dotted();
        lemma_owner(symbol, asset_suffixes()[n - 1]);
        assert(owners(before).push(symbol).last() == symbol);
        assert(owners(before).push(symbol).contains(symbol));
    }
}

proof fn lemma_owners_assets(symbols: Seq<Seq<char>>)
    requires
        symbols.no_duplicates(),
        forall|i: int| 0 <= i < symbols.len() ==> is_plain_symbol(#[trigger] symbols[i]),
    ensures
        owners(assets_names(symbols)) == symbols,
    decreases symbols.len(),
{
    if symbols.len() > 0 {
        let rest = symbols.drop_last();
        assert forall|i: int| 0 <= i < rest.len() implies is_plain_symbol(#[trigger] rest[i]) by {
            assert(is_plain_symbol(symbols[i]));
        }
        lemma_owners_assets(rest);
        assert(is_plain_symbol(symbols[symbols.len() - 1]));
        assert(!rest.contains(symbols.last()));
        lemma_owners_asset(assets_names(rest), symbols.last(), 17);
        assert(asset_names(symbols.last()).take(17) =~= asset_names(symbols.last()));
        assert(rest.push(symbols.last()) =~= symbols);
    }
}

proof fn lemma_owners_cross(before: Seq<Seq<char>>, n: int)
    requires
        0 <= n <= 3,
    ensures
        owners(before + cross_names().take(n)) == owners(before),
    decreases n,
{
    let all = before + cross_names().take(n);
    if n == 0 {
        assert(all =~= before);
    } else {
        lemma_owners_cross(before, n - 1);
        assert(all.drop_last() =~= before + cross_names().take(n - 1));
        reveal_strlit("BTC_minus_ETH");
        reveal_strlit("BTC_minus_ETH.return_100ms");
        reveal_strlit("BTC_minus_ETH.return_1000ms");
        reveal_strlit("BTC_minus_ETH.return_5000ms");
        let name = cross_names()[n - 1];
        assert(all.last() == name);
        lemma_char_skips(name, '.', 0, 13);
        assert(name.take(13) =~= "BTC_minus_ETH"@);
    }
}

/// A model that was built on the features of a list of distinct assets names exactly those assets,
/// in their order.
pub proof fn law_asset_symbols_recover_symbols(symbols: Seq<Seq<char>>)
    requires
        symbols.no_duplicates(),
        forall|i: int| 0 <= i < symbols.len() ==> is_plain_symbol(#[trigger] symbols[i]),
    ensures
        owners(feature_names(symbols)) == symbols,
{
    lemma_owners_assets(symbols);
    lemma_owners_cross(assets_names(symbols), 3);
    assert(cross_names().take(3) =~= cross_names());
}

} // verus!
