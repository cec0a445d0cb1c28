//! Which configurations and models are accepted, in whole units.
use crate::config::{Config, Venue};
use crate::features::feature_names;
use crate::fixed::Fixed;
use crate::model::Model;
use crate::text::{lemma_place, texts};
use vstd::prelude::*;

verus! {

/// A configuration is accepted exactly where it names the two instruments of its venue, in order, keeps
/// the times that the features are made for, waits and buffers for a while, has amounts above zero and no
/// negative fee, and limits entries by the gross limit and that by the equity.
pub proof fn law_configurations_are_unlevered_and_complete(c: Config<Fixed>)
    ensures
        c.fault() is None <==> {
            &&& c.names() == match c.venue {
                Venue::BinanceUsdm => seq!["BTCUSDT"@, "ETHUSDT"@],
                Venue::CoinbaseSpot => seq!["BTC-USD"@, "ETH-USD"@],
            }
            &&& c.decision_ms == 100
            &&& c.horizon_ms == 1000
            &&& c.warmup_ms >= 5000
            &&& c.stale_ms > 0
            &&& c.latency_ms > 0
            &&& c.queue_capacity > 0
            &&& c.daily_loss.units > 0
            &&& c.fee_bps.units >= 0
            &&& 0 < c.entry_notional.units <= c.gross_cap.units <= c.equity.units
        },
{
}

/// A model is accepted for the instruments exactly where it is of the first version and for the horizon
/// of a second, predicts one of them, has a mean, a scale above zero and a coefficient for each of their
/// features in order, no negative penalty or buffer, was selected no earlier than it was trained, and
/// names its data by a hash of 64 hexadecimal digits.
pub proof fn law_models_fit_their_features(m: Model<Fixed>, symbols: Seq<Seq<char>>)
    ensures
        m.fault(symbols) is None <==> {
            let n = feature_names(symbols);
            &&& m.version == 1
            &&& m.horizon_ms == 1000
            &&& symbols.contains(m.symbol@)
            &&& texts(m.features@) == n
            &&& m.mean@.len() == n.len()
            &&& m.scale@.len() == n.len()
            &&& m.coefficients@.len() == n.len()
            &&& forall|k: int| 0 <= k < n.len() ==> (#[trigger] m.scale@[k]).units > 0
            &&& m.alpha.units >= 0
            &&& m.entry_buffer_bps.units >= 0
            &&& m.selected_through_ns >= m.trained_through_ns
            &&& m.dataset_sha256@.len() == 64
            &&& forall|k: int|
                0 <= k < 64 ==> {
                    let d = #[trigger] m.dataset_sha256@[k];
                    ('0' <= d && d <= '9') || ('a' <= d && d <= 'f') || ('A' <= d && d <= 'F')
                }
        },
{
    lemma_place(symbols, m.symbol@, 0);
    if symbols.contains(m.symbol@) {
        let k = choose|k: int| 0 <= k < symbols.len() && symbols[k] == m.symbol@;
        assert(symbols[k] == m.symbol@);
    }
}

} // verus!
