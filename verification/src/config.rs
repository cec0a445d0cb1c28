//! What a run is configured with.
use crate::book::{amount, is_amount};
use crate::error::Error;
use crate::number::{zero, Real};
use crate::text::{same_text, texts};
use crate::types::MS;
use vstd::prelude::*;

verus! {

/// Where the market data comes from.
#[derive(Clone, Copy, Debug, Default, PartialEq, Eq, Structural)]
pub enum Venue {
    #[default]
    BinanceUsdm,
    CoinbaseSpot,
}

impl Venue {
    /// The symbols of BTC and ETH at the venue.
    pub open spec fn symbols(self) -> Seq<Seq<char>> {
        match self {
            Venue::BinanceUsdm => seq!["BTCUSDT"@, "ETHUSDT"@],
            Venue::CoinbaseSpot => seq!["BTC-USD"@, "ETH-USD"@],
        }
    }
}

/// The configuration of a run.
#[derive(Clone, Debug)]
pub struct Config<R> {
    pub venue: Venue,
    pub symbols: Vec<String>,
    pub public_ws: String,
    pub market_ws: String,
    pub rest_url: String,
    pub stale_ms: u64,
    pub warmup_ms: u64,
    pub decision_ms: u64,
    pub horizon_ms: u64,
    pub latency_ms: u64,
    pub fee_bps: R,
    pub equity: R,
    pub entry_notional: R,
    pub gross_cap: R,
    pub daily_loss: R,
    pub queue_capacity: usize,
    pub checkpoint_ms: u64,
    pub model_paths: Vec<String>,
}

/// How often a checkpoint is taken where the configuration does not say.
pub fn default_checkpoint_ms() -> (r: u64)
    ensures
        r == 1000,
{
    1000
}

impl<R: Real> Config<R> {
    /// Why the configuration is refused, if it is.
    pub open spec fn fault(self) -> Option<Error> {
        if texts(self.symbols@) != self.venue.symbols() {
            Some(Error::VenueSymbols)
        } else if !(self.decision_ms == 100 && self.horizon_ms == 1000 && self.warmup_ms >= 5000) {
            Some(Error::FeatureContract)
        } else if !(self.stale_ms > 0 && self.latency_ms > 0 && self.queue_capacity > 0) {
            Some(Error::InvalidTiming)
        } else if !is_amount(self.equity) || !is_amount(self.entry_notional) || !is_amount(
            self.gross_cap,
        ) || !is_amount(self.daily_loss) {
            Some(Error::InvalidRisk)
        } else if !(self.fee_bps.spec_is_finite() && zero::<R>().spec_within(self.fee_bps)) {
            Some(Error::InvalidFee)
        } else if !(self.gross_cap.spec_within(self.equity) && self.entry_notional.spec_within(
            self.gross_cap,
        )) {
            Some(Error::LeveragedLimits)
        } else {
            None
        }
    }

    /// The symbols as texts.
    pub open spec fn names(self) -> Seq<Seq<char>> {
        texts(self.symbols@)
    }

    /// Whether the configured delays, counted from a time, stay within the clock.
    pub open spec fn fits(self, t: u64) -> bool {
        &&& self.stale_ms * MS <= u64::MAX
        &&& t + self.latency_ms * MS <= u64::MAX
        &&& t + self.horizon_ms * MS <= u64::MAX
        &&& t + self.warmup_ms * MS <= u64::MAX
    }

    /// Whether the configured delays, counted from a time, stay within the clock.
    pub fn admits(&self, t: u64) -> (r: bool)
        ensures
            r == self.fits(t),
    {
        let room: u64 = (u64::MAX - t) / MS;
        self.stale_ms <= u64::MAX / MS && self.latency_ms <= room && self.horizon_ms <= room
            && self.warmup_ms <= room
    }

    /// Checks the configuration.
    pub fn validate(&self) -> (r: Result<(), Error>)
        ensures
            match self.fault() {
                Some(fault) => r == Err::<(), Error>(fault),
                None => r == Ok::<(), Error>(()),
            },
    {
        let (first, second) = match self.venue {
            Venue::BinanceUsdm => ("BTCUSDT", "ETHUSDT"),
            Venue::CoinbaseSpot => ("BTC-USD", "ETH-USD"),
        };
        let expected = self.symbols.len() == 2 && same_text(self.symbols[0].as_str(), first)
            && same_text(self.symbols[1].as_str(), second);
        proof {
            assert(self.venue.symbols() =~= seq![first@, second@]);
            if expected {
                assert(texts(self.symbols@) =~= seq![first@, second@]);
            } else if texts(self.symbols@) == self.venue.symbols() {
                assert(texts(self.symbols@).len() == 2);
                assert(texts(self.symbols@)[0] == first@);
                assert(texts(self.symbols@)[1] == second@);
            }
        }
        if !expected {
            return Err(Error::VenueSymbols);
        }
        if !(self.decision_ms == 100 && self.horizon_ms == 1000 && self.warmup_ms >= 5000) {
            return Err(Error::FeatureContract);
        }
        if !(self.stale_ms > 0 && self.latency_ms > 0 && self.queue_capacity > 0) {
            return Err(Error::InvalidTiming);
        }
        if !amount(self.equity) || !amount(self.entry_notional) || !amount(self.gross_cap)
            || !amount(self.daily_loss) {
            return Err(Error::InvalidRisk);
        }
        if !(self.fee_bps.is_finite() && R::from_i64(0).within(self.fee_bps)) {
            return Err(Error::InvalidFee);
        }
        if !(self.gross_cap.within(self.equity) && self.entry_notional.within(self.gross_cap)) {
            return Err(Error::LeveragedLimits);
        }
        Ok(())
    }
}

/// A valid configuration names two instruments, and they differ.
pub proof fn law_two_instruments<R: Real>(c: Config<R>)
    requires
        c.fault() is None,
    ensures
        c.symbols@.len() == 2,
        c.names()[0] != c.names()[1],
{
    reveal_strlit("BTCUSDT");
    reveal_strlit("ETHUSDT");
    reveal_strlit("BTC-USD");
    reveal_strlit("ETH-USD");
    assert(c.names().len() == 2);
    assert(c.names()[0][0] == 'B');
    assert(c.names()[1][0] == 'E');
}

} // verus!
