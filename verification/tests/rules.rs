use microengine::book::Book;
use microengine::config::{default_checkpoint_ms, Config, Venue};
use microengine::engine::Engine;
use microengine::error::Error;
use microengine::features;
use microengine::features::History;
use microengine::fixed::Fixed;
use microengine::io;
use microengine::io::{Job, Offsets};
use microengine::model::Model;
use microengine::number::Real;
use microengine::paper::Broker;
use microengine::replay;
use microengine::replay::{Labeler, Replay};
use microengine::synthetic;
use microengine::text;
use microengine::types::{Event, Kind, MS, SECOND};

/// Double-precision numbers.
#[derive(Clone, Copy, Debug, PartialEq, PartialOrd)]
struct F(f64);

impl Real for F {
    fn spec_from_i64(n: i64) -> F {
        F::from_i64(n)
    }
    fn from_i64(n: i64) -> F {
        F(n as f64)
    }
    fn spec_from_u64(n: u64) -> F {
        F::from_u64(n)
    }
    fn from_u64(n: u64) -> F {
        F(n as f64)
    }
    fn spec_parse(text: &String) -> Option<F> {
        F::parse(text)
    }
    fn parse(text: &String) -> Option<F> {
        text.parse().ok().map(F)
    }
    fn spec_plus(self, o: F) -> F {
        self.plus(o)
    }
    fn plus(self, o: F) -> F {
        F(self.0 + o.0)
    }
    fn spec_minus(self, o: F) -> F {
        self.minus(o)
    }
    fn minus(self, o: F) -> F {
        F(self.0 - o.0)
    }
    fn spec_times(self, o: F) -> F {
        self.times(o)
    }
    fn times(self, o: F) -> F {
        F(self.0 * o.0)
    }
    fn spec_over(self, o: F) -> F {
        self.over(o)
    }
    fn over(self, o: F) -> F {
        F(self.0 / o.0)
    }
    fn spec_negated(self) -> F {
        self.negated()
    }
    fn negated(self) -> F {
        F(-self.0)
    }
    fn spec_magnitude(self) -> F {
        self.magnitude()
    }
    fn magnitude(self) -> F {
        F(self.0.abs())
    }
    fn spec_larger(self, o: F) -> F {
        self.larger(o)
    }
    fn larger(self, o: F) -> F {
        F(self.0.max(o.0))
    }
    fn spec_smaller(self, o: F) -> F {
        self.smaller(o)
    }
    fn smaller(self, o: F) -> F {
        F(self.0.min(o.0))
    }
    fn spec_sign(self) -> F {
        self.sign()
    }
    fn sign(self) -> F {
        F(self.0.signum())
    }
    fn spec_floored(self) -> F {
        self.floored()
    }
    fn floored(self) -> F {
        F(self.0.floor())
    }
    fn spec_rounded(self) -> F {
        self.rounded()
    }
    fn rounded(self) -> F {
        F(self.0.round())
    }
    fn spec_log(self) -> F {
        self.log()
    }
    fn log(self) -> F {
        F(self.0.ln())
    }
    fn spec_root(self) -> F {
        self.root()
    }
    fn root(self) -> F {
        F(self.0.sqrt())
    }
    fn spec_to_i64(self) -> i64 {
        self.to_i64()
    }
    fn to_i64(self) -> i64 {
        self.0 as i64
    }
    fn spec_below(self, o: F) -> bool {
        self.below(o)
    }
    fn below(self, o: F) -> bool {
        self.0 < o.0
    }
    fn spec_within(self, o: F) -> bool {
        self.within(o)
    }
    fn within(self, o: F) -> bool {
        self.0 <= o.0
    }
    fn spec_same(self, o: F) -> bool {
        self.same(o)
    }
    fn same(self, o: F) -> bool {
        self.0 == o.0
    }
    fn spec_is_finite(self) -> bool {
        self.is_finite()
    }
    fn is_finite(self) -> bool {
        self.0.is_finite()
    }
}

fn config() -> Config<F> {
    Config {
        venue: Venue::BinanceUsdm,
        symbols: vec!["BTCUSDT".into(), "ETHUSDT".into()],
        public_ws: "wss://public.example/stream".into(),
        market_ws: "wss://market.example/stream".into(),
        rest_url: "https://rest.example".into(),
        stale_ms: 500,
        warmup_ms: 5000,
        decision_ms: 100,
        horizon_ms: 1000,
        latency_ms: 50,
        fee_bps: F(5.0),
        equity: F(10000.0),
        entry_notional: F(100.0),
        gross_cap: F(1000.0),
        daily_loss: F(100.0),
        queue_capacity: 8192,
        checkpoint_ms: default_checkpoint_ms(),
        model_paths: vec![],
    }
}

fn event(seq: u64, ms: u64, kind: Kind<F>) -> Event<F> {
    Event {
        version: 1,
        session: "test".into(),
        seq,
        recv_ns: 1_700_000_000_000_000_000 + ms * MS,
        utc_ns: 1_700_000_000_000_000_000 + ms * MS,
        exchange_ns: None,
        raw: None,
        kind,
    }
}

fn metadata(s: &str) -> Kind<F> {
    Kind::Metadata {
        symbol: s.into(),
        tick: F(0.1),
        step: F(0.001),
        min_qty: F(0.001),
        min_notional: F(5.0),
    }
}

fn snapshot(s: &str) -> Kind<F> {
    Kind::Snapshot {
        symbol: s.into(),
        last_id: 10,
        bids: vec![[F(99.9), F(10.0)]],
        asks: vec![[F(100.1), F(10.0)]],
    }
}

fn depth(s: &str, last: u64, prev: u64) -> Kind<F> {
    Kind::Depth {
        symbol: s.into(),
        first_id: if last == 11 { 10 } else { last },
        last_id: last,
        prev_id: prev,
        bids: vec![[F(99.9), F(10.0)]],
        asks: vec![[F(100.1), F(10.0)]],
    }
}

fn book() -> Book<F> {
    let mut b = Book::default();
    for (i, k) in [
        metadata("BTCUSDT"),
        snapshot("BTCUSDT"),
        depth("BTCUSDT", 11, 10),
    ]
    .into_iter()
    .enumerate()
    {
        b.apply(&event(i as u64 + 1, 0, k)).unwrap();
    }
    b
}

fn stream(frames: u64) -> Vec<Event<F>> {
    let mut out = Vec::new();
    let mut add = |ms, k| out.push(event(out.len() as u64 + 1, ms, k));
    for source in ["public", "market"] {
        add(
            0,
            Kind::Connection {
                source: source.into(),
                connected: true,
            },
        );
    }
    for s in ["BTCUSDT", "ETHUSDT"] {
        add(0, metadata(s));
        add(0, snapshot(s));
    }
    for i in 0..frames {
        for s in ["BTCUSDT", "ETHUSDT"] {
            add(i * 100, depth(s, 11 + i, 10 + i));
        }
        add(i * 100, Kind::Timer);
    }
    out
}

fn model() -> Model<F> {
    Model {
        version: 1,
        symbol: "BTCUSDT".into(),
        features: features::names(&config().symbols),
        mean: vec![F(0.0); 37],
        scale: vec![F(1.0); 37],
        coefficients: vec![F(0.0); 37],
        intercept: F(100.0),
        horizon_ms: 1000,
        trained_through_ns: 0,
        selected_through_ns: 0,
        dataset_sha256: "0".repeat(64),
        entry_buffer_bps: F(0.0),
        alpha: F(1.0),
    }
}

fn fixed(text: &str) -> Fixed {
    Fixed::parse(&text.to_string()).unwrap()
}

#[test]
fn fixed_numbers_compute_in_decimal() {
    assert_eq!(fixed("0.1").plus(fixed("0.2")), fixed("0.3"));
    assert_eq!(fixed("1").minus(fixed("2.5")), fixed("-1.5"));
    assert_eq!(fixed("1.5").times(fixed("-2")), fixed("-3"));
    assert_eq!(fixed("1").over(fixed("8")), fixed("0.125"));
    assert_eq!(fixed("-2.5").rounded(), fixed("-3"));
    assert_eq!(fixed("-2.5").floored(), fixed("-3"));
    assert_eq!(fixed("2.25").root(), fixed("1.5"));
    assert_eq!(fixed("-7.9").to_i64(), -7);
    assert_eq!(fixed("3").sign(), fixed("1"));
    assert_eq!(fixed("-3").magnitude(), fixed("3"));
    assert_eq!(fixed("2").larger(fixed("3")), fixed("3"));
    assert_eq!(fixed("2").smaller(fixed("3")), fixed("2"));
    assert_eq!(fixed("5").negated(), fixed("-5"));
    assert!(fixed("2").below(fixed("2.000000001")));
    assert!(fixed("2").within(fixed("2")));
    assert!(fixed("2").same(Fixed::from_i64(2)));
    assert!(fixed("2").same(Fixed::from_u64(2)));
    assert_eq!(Fixed::parse(&"x".to_string()), None);
    let e = fixed("2.718281828").log();
    assert!(e.minus(fixed("1")).magnitude().below(fixed("0.00001")));
}

#[test]
fn exact_addition_balances_the_account() {
    let (a, b, c) = (fixed("0.1"), fixed("7.000000003"), fixed("-2.5"));
    assert_eq!(a.plus(b), b.plus(a));
    assert_eq!(a.plus(b).plus(c), a.plus(b.plus(c)));
    assert_eq!(a.plus(Fixed::from_i64(0)), a);
    assert_eq!(a.minus(b).plus(b), a);
    let near = Fixed { units: i64::MAX };
    assert_eq!(near.minus(a).plus(a), near);
    assert_eq!(near.plus(b).minus(b), near);
}

#[test]
fn cash_is_equity_plus_results_less_fees() {
    let mut eng = Engine::new(config(), vec![model()]).unwrap();
    for e in stream(100) {
        eng.on_event(&e).unwrap();
        let b = &eng.broker;
        let expected = 10000.0 + b.realized.0 + b.funding.0 - b.fees.0;
        assert!((b.cash.0 - expected).abs() < 1e-9);
    }
    assert!(eng.broker.fees > F(0.0));
    assert!(eng.broker.realized < F(0.0));
}

#[test]
fn configurations_are_refused_for_their_reason() {
    let cases: Vec<(fn(&mut Config<F>), Error)> = vec![
        (|c| c.symbols.swap(0, 1), Error::VenueSymbols),
        (|c| c.venue = Venue::CoinbaseSpot, Error::VenueSymbols),
        (|c| c.decision_ms = 200, Error::FeatureContract),
        (|c| c.horizon_ms = 2000, Error::FeatureContract),
        (|c| c.warmup_ms = 4999, Error::FeatureContract),
        (|c| c.stale_ms = 0, Error::InvalidTiming),
        (|c| c.latency_ms = 0, Error::InvalidTiming),
        (|c| c.queue_capacity = 0, Error::InvalidTiming),
        (|c| c.equity = F(f64::NAN), Error::InvalidRisk),
        (|c| c.daily_loss = F(0.0), Error::InvalidRisk),
        (|c| c.fee_bps = F(-1.0), Error::InvalidFee),
        (|c| c.gross_cap = F(10001.0), Error::LeveragedLimits),
        (|c| c.entry_notional = F(1001.0), Error::LeveragedLimits),
    ];
    for (change, fault) in cases {
        let mut c = config();
        change(&mut c);
        assert_eq!(c.validate(), Err(fault));
        assert_eq!(Engine::new(c, vec![]).unwrap_err(), fault);
    }
    assert_eq!(config().validate(), Ok(()));
    assert!(config().admits(1_700_000_000_000_000_000));
    assert!(!config().admits(u64::MAX));
    assert_eq!(default_checkpoint_ms(), 1000);
}

#[test]
fn models_are_refused_for_their_reason() {
    let cases: Vec<(fn(&mut Model<F>), Error)> = vec![
        (|m| m.version = 2, Error::UnsupportedModelContract),
        (|m| m.horizon_ms = 2, Error::UnsupportedModelContract),
        (|m| m.symbol = "X".into(), Error::UnsupportedModelSymbol),
        (|m| m.mean.truncate(36), Error::FeatureSchemaMismatch),
        (|m| m.mean[3] = F(f64::NAN), Error::NonfiniteModel),
        (|m| m.scale[3] = F(-1.0), Error::NonfiniteModel),
        (|m| m.alpha = F(-1.0), Error::InvalidModelParameter),
        (|m| m.intercept = F(f64::INFINITY), Error::InvalidModelParameter),
        (|m| m.trained_through_ns = 1, Error::InvalidProvenance),
        (|m| m.dataset_sha256 = "g".repeat(64), Error::InvalidProvenance),
        (|m| m.dataset_sha256 = "0".repeat(63), Error::InvalidProvenance),
    ];
    for (change, fault) in cases {
        let mut m = model();
        change(&mut m);
        assert_eq!(m.validate(&config().symbols), Err(fault));
    }
    assert_eq!(model().validate(&config().symbols), Ok(()));
    assert_eq!(
        Engine::new(config(), vec![model(), model()]).unwrap_err(),
        Error::DuplicateModels
    );
    assert_eq!(model().asset_symbols(), config().symbols);
}

#[test]
fn predictions_are_standardized_and_weighted() {
    let mut m = model();
    m.intercept = F(1.0);
    m.mean[0] = F(2.0);
    m.scale[0] = F(4.0);
    m.coefficients[0] = F(8.0);
    m.coefficients[36] = F(-1.0);
    let mut x = vec![F(0.0); 37];
    x[0] = F(5.0);
    x[36] = F(0.5);
    assert_eq!(m.predict(&x), F(1.0 + 6.0 - 0.5));
    assert_eq!(replay::score(&m, &x), Ok(F(6.5)));
    assert_eq!(
        replay::score(&m, &vec![F(0.0); 36]),
        Err(Error::InvalidFeatureVector)
    );
    x[1] = F(f64::NAN);
    assert_eq!(replay::score(&m, &x), Err(Error::InvalidFeatureVector));
}

#[test]
fn feature_names_are_listed_asset_by_asset() {
    let names = features::names(&config().symbols);
    assert_eq!(names.len(), 37);
    assert_eq!(names[0], "BTCUSDT.spread_bps");
    assert_eq!(names[16], "BTCUSDT.volatility_bps_5000ms");
    assert_eq!(names[17], "ETHUSDT.spread_bps");
    assert!(names[34].starts_with("BTC_minus_ETH"));
}

#[test]
fn a_sample_holds_mids_spreads_and_features() {
    let mut eng = Engine::new(config(), vec![]).unwrap();
    let mut last = None;
    for e in stream(60) {
        let (s, rows) = eng.on_event(&e).unwrap();
        assert!(rows.is_empty());
        if s.is_some() {
            last = s;
        }
    }
    let s = last.unwrap();
    assert_eq!(s.mids, [F((99.9 + 100.1) / 2.0); 2]);
    let spread = (1001.0 * 0.1 - 999.0 * 0.1) / s.mids[0].0 * 10000.0;
    assert_eq!(s.spreads_bps, [F(spread); 2]);
    assert_eq!(s.features.len(), 37);
    assert_eq!(s.features[0], F(spread));
    assert_eq!(s.features[2], F(0.0));
    assert_eq!(s.epoch, eng.epoch);
}

#[test]
fn book_refusals_and_amounts() {
    let mut b: Book<F> = Book::default();
    assert_eq!(b.apply(&event(1, 0, snapshot("A"))), Err(Error::MissingMetadata));
    let bad = Kind::Metadata {
        symbol: "A".into(),
        tick: F(0.0),
        step: F(1.0),
        min_qty: F(1.0),
        min_notional: F(1.0),
    };
    assert_eq!(b.apply(&event(1, 0, bad)), Err(Error::InvalidInstrument));
    let mut b = book();
    let level = |p: f64, q: f64, first: u64| Kind::Depth {
        symbol: "BTCUSDT".into(),
        first_id: first,
        last_id: 12,
        prev_id: 11,
        bids: vec![[F(p), F(q)]],
        asks: vec![],
    };
    assert_eq!(
        b.apply(&event(4, 1, level(1.0, 1.0, 13))),
        Err(Error::InvalidDepthRange)
    );
    assert_eq!(
        b.clone().apply(&event(4, 1, level(-1.0, 1.0, 12))),
        Err(Error::InvalidDepthLevel)
    );
    assert_eq!(
        b.clone().apply(&event(4, 1, level(99.95, 1.0, 12))),
        Err(Error::OffTickPrice)
    );
    assert_eq!(b.mid(), Some(F((999.0 * 0.1 + 1001.0 * 0.1) / 2.0)));
    b.bids.insert(998, F(20.0));
    assert_eq!(b.imbalance(1), F(0.0));
    assert_eq!(b.imbalance(5), F(20.0 / 40.0));
    b.invalidate();
    assert_eq!(b.top(), None);
    assert_eq!(b.generation, 2);
    let mut waiting: Book<F> = Book::default();
    for i in 0..8192 {
        assert_eq!(waiting.apply(&event(i, 0, depth("A", 12 + i, 11 + i))), Ok(false));
    }
    assert_eq!(
        waiting.apply(&event(1, 0, depth("A", 9000, 8999))),
        Err(Error::DepthBufferOverflow)
    );
}

#[test]
fn engine_refusals() {
    let mut eng = Engine::new(config(), vec![]).unwrap();
    eng.on_event(&event(5, 10, Kind::Timer)).unwrap();
    assert_eq!(
        eng.on_event(&event(5, 11, Kind::Timer)).unwrap_err(),
        Error::InvalidSequence
    );
    assert_eq!(
        eng.on_event(&event(6, 9, Kind::Timer)).unwrap_err(),
        Error::ClockMovedBackwards
    );
    assert_eq!((eng.last_seq, eng.now), (5, event(5, 10, Kind::Timer).recv_ns));
    assert_eq!(
        eng.on_event(&event(6, 10, metadata("DOGE"))).unwrap_err(),
        Error::UnexpectedSymbol
    );
    let feed = Kind::Connection {
        source: "private".into(),
        connected: true,
    };
    assert_eq!(
        eng.on_event(&event(7, 10, feed)).unwrap_err(),
        Error::UnknownFeed
    );
    let funding = Kind::Funding {
        symbol: "BTCUSDT".into(),
        funding_ns: 1,
        rate: F(0.1),
        mark: F(0.0),
    };
    assert_eq!(
        eng.on_event(&event(8, 10, funding)).unwrap_err(),
        Error::InvalidFunding
    );
    let mut m = model();
    m.coefficients[0] = F(f64::MAX);
    m.scale[0] = F(f64::MIN_POSITIVE);
    let mut eng = Engine::new(config(), vec![m]).unwrap();
    assert!(stream(70)
        .iter()
        .any(|e| eng.on_event(e).is_err_and(|x| x == Error::NonfinitePrediction)));
    let mut m = model();
    m.selected_through_ns = u64::MAX;
    let mut eng = Engine::new(config(), vec![m]).unwrap();
    assert!(stream(70)
        .iter()
        .any(|e| eng.on_event(e).is_err_and(|x| x == Error::ModelOverlapsDecision)));
}

#[test]
fn engines_that_are_read_back_can_be_tested() {
    let mut eng = Engine::new(config(), vec![model()]).unwrap();
    for e in stream(3) {
        eng.on_event(&e).unwrap();
    }
    assert!(eng.is_sound());
    let mut late = eng.clone();
    late.healthy_since = Some(u64::MAX);
    assert!(!late.is_sound());
    let mut foreign = eng.clone();
    foreign.models[0].symbol = "X".into();
    assert!(!foreign.is_sound());
    let mut odd = eng.clone();
    odd.books[1].buffer.push(event(1, 0, Kind::Timer));
    assert!(!odd.is_sound());
    eng.config.equity = F(-1.0);
    assert!(!eng.is_sound());
}

#[test]
fn a_loss_drops_both_books_and_a_new_session_keeps_the_account() {
    let mut eng = Engine::new(config(), vec![model()]).unwrap();
    for e in stream(60) {
        eng.on_event(&e).unwrap();
    }
    assert!(eng.healthy_since.is_some());
    let held = eng.broker.positions[0].qty;
    assert!(held != F(0.0));
    let epoch = eng.epoch;
    let mut other = event(eng.last_seq + 1, 5950, Kind::Timer);
    other.session = "next".into();
    eng.on_event(&other).unwrap();
    assert_eq!(eng.epoch, epoch + 1);
    assert_eq!(eng.feeds, [false, false]);
    assert!(!eng.books[0].synced && !eng.books[1].synced);
    assert_eq!(eng.broker.positions[0].qty, held);
    assert!(eng.broker.exposure_unpriced);
    let lost = Kind::Disconnect {
        reason: "test".into(),
    };
    let mut eng = Engine::new(config(), vec![]).unwrap();
    for e in stream(60) {
        eng.on_event(&e).unwrap();
    }
    eng.on_event(&event(eng.last_seq + 1, 5950, lost)).unwrap();
    assert!(!eng.books[0].synced && !eng.books[1].synced);
    assert_eq!(eng.healthy_since, None);
}

#[test]
fn fills_pay_fees_and_respect_arrival() {
    let c = config();
    let mut b = Broker::new(c.equity);
    let mut books = [book(), book()];
    let e = event(1, 0, Kind::Timer);
    b.on_event(&e, &books, &c, None, true).unwrap();
    let rows = b.decide(0, F(100.0), F(0.0), &e, &books, &c);
    let actions: Vec<&str> = rows.iter().map(|r| r.action.as_str()).collect();
    assert_eq!(actions, vec!["prediction", "entry_submitted"]);
    assert_eq!(b.pending[0].unwrap().arrival_ns, e.recv_ns + 50 * MS);
    books[0].updated_ns = e.recv_ns + 50 * MS;
    let rows = b
        .on_event(&event(2, 50, depth("BTCUSDT", 12, 11)), &books, &c, Some(0), true)
        .unwrap();
    assert_eq!(rows[0].action, "fill");
    let price = 1001.0 * 0.1;
    assert_eq!(rows[0].price, F(price));
    assert_eq!(rows[0].fee, F(price * 5.0 / 10000.0));
    assert_eq!(b.fees, F(price * 5.0 / 10000.0));
    assert_eq!(b.cash, F(10000.0 - price * 5.0 / 10000.0));
    assert_eq!(b.turnover, F(price));
    assert_eq!(b.consumed[1].get(&1001), Some(&F(1.0)));
    assert_eq!(b.positions[0].exit_due_ns, e.recv_ns + 1050 * MS);
    assert!(b.pending[0].is_none());
    assert_eq!(b.per_symbol[0].fills, 1);
}

#[test]
fn an_entry_that_cannot_fill_is_gone() {
    let c = config();
    let mut b = Broker::new(c.equity);
    let mut books = [book(), book()];
    let e = event(1, 0, Kind::Timer);
    b.on_event(&e, &books, &c, None, true).unwrap();
    b.decide(0, F(100.0), F(0.0), &e, &books, &c);
    books[0].asks.insert(1001, F(0.3));
    books[0].updated_ns = e.recv_ns + 60 * MS;
    let rows = b
        .on_event(&event(2, 60, depth("BTCUSDT", 12, 11)), &books, &c, Some(0), true)
        .unwrap();
    let actions: Vec<&str> = rows.iter().map(|r| r.action.as_str()).collect();
    assert_eq!(actions, vec!["fill", "cancel"]);
    assert!((b.positions[0].qty.0 - 0.3).abs() < 1e-9);
    assert!(b.pending[0].is_none());
}

#[test]
fn the_stop_lasts_until_the_next_day() {
    let c = config();
    let mut b = Broker::new(c.equity);
    let books = [book(), book()];
    b.on_event(&event(1, 0, Kind::Timer), &books, &c, None, true)
        .unwrap();
    b.cash = F(9899.0);
    b.on_event(&event(2, 1, Kind::Timer), &books, &c, None, true)
        .unwrap();
    assert!(b.stopped);
    b.cash = F(10000.0);
    b.on_event(&event(3, 2, Kind::Timer), &books, &c, None, true)
        .unwrap();
    assert!(b.stopped);
    let e = event(4, 3, Kind::Timer);
    assert_eq!(b.decide(0, F(100.0), F(0.0), &e, &books, &c).len(), 1);
    assert!(b.pending[0].is_none());
    b.on_event(&event(5, 86_400_000, Kind::Timer), &books, &c, None, true)
        .unwrap();
    assert!(!b.stopped);
}

#[test]
fn updates_restore_only_the_prices_that_they_display() {
    let c = config();
    let mut b = Broker::new(c.equity);
    let books = [book(), book()];
    b.consumed[0].insert(999, F(1.0));
    b.consumed[0].insert(998, F(2.0));
    b.consumed[1].insert(1001, F(3.0));
    b.consumed[3].insert(1001, F(4.0));
    b.on_event(&event(1, 0, depth("BTCUSDT", 12, 11)), &books, &c, Some(0), true)
        .unwrap();
    assert_eq!(b.consumed[0].get(&999), None);
    assert_eq!(b.consumed[0].get(&998), Some(&F(2.0)));
    assert_eq!(b.consumed[1].get(&1001), None);
    assert_eq!(b.consumed[3].get(&1001), Some(&F(4.0)));
    b.on_event(&event(2, 0, snapshot("BTCUSDT")), &books, &c, None, true)
        .unwrap();
    assert!(b.consumed[0].is_empty());
    assert!(!b.consumed[3].is_empty());
}

#[test]
fn lines_are_framed_and_read_back() {
    let mut log = io::json_line(b"{\"a\":1}".to_vec());
    assert_eq!(log, b"{\"a\":1}\n");
    log.extend(io::json_line(b"{}".to_vec()));
    let whole = log.len();
    log.extend(b"{partial");
    let (lines, used) = io::complete_lines(&log);
    assert_eq!(lines, vec![b"{\"a\":1}".to_vec(), b"{}".to_vec()]);
    assert_eq!(used, whole);
    assert_eq!(io::complete_lines(&b"x".to_vec()), (vec![], 0));
}

#[test]
fn digests_are_written_in_hexadecimal() {
    assert_eq!(
        io::hash(&b"abc".to_vec()),
        "ba7816bf8f01cfea414140de5dae2223b00361a396177a9cb410ff61f20015ad"
    );
    assert_eq!(io::hex(&vec![0, 15, 16, 255]), "000f10ff");
}

#[test]
fn runs_are_started_and_resumed_with_care() {
    assert_eq!(io::check_fresh(false, false), Ok(()));
    assert_eq!(io::check_fresh(true, false), Err(Error::ExistingArtifacts));
    assert_eq!(io::check_fresh(false, true), Err(Error::ExistingArtifacts));
    let at = |log, journal| Offsets { log, journal };
    assert_eq!(io::check_resume(1, true, at(5, 5), at(5, 5)), Ok(()));
    assert_eq!(
        io::check_resume(2, true, at(5, 5), at(5, 5)),
        Err(Error::CheckpointVersion)
    );
    assert_eq!(
        io::check_resume(1, false, at(5, 5), at(5, 5)),
        Err(Error::ResumeMismatch)
    );
    assert_eq!(
        io::check_resume(1, true, at(4, 5), at(5, 5)),
        Err(Error::CheckpointBeyondFiles)
    );
    let plan = io::plan_checkpoint(Job::Idle);
    assert_eq!((plan.collect, plan.start), (false, true));
    let plan = io::plan_checkpoint(Job::Running);
    assert_eq!((plan.collect, plan.start), (false, false));
    let plan = io::plan_checkpoint(Job::Finished);
    assert_eq!((plan.collect, plan.start), (true, true));
}

#[test]
fn what_was_written_is_applied() {
    let mut engine = Engine::new(config(), vec![]).unwrap();
    let e = event(1, 0, Kind::Timer);
    assert!(io::write_then_apply(true, &mut engine, &e).unwrap().is_empty());
    assert_eq!(engine.last_seq, 1);
    let mut late = event(2, 0, Kind::Timer);
    late.recv_ns = u64::MAX;
    assert_eq!(
        io::write_then_apply(false, &mut engine, &late).unwrap_err(),
        Error::WriteFailed
    );
    assert_eq!(engine.last_seq, 1);
}

#[test]
fn a_recovered_tail_matches_an_uninterrupted_run() {
    let events = stream(90);
    let mut whole = Engine::new(config(), vec![model()]).unwrap();
    let mut journal = Vec::new();
    let mut resumed = None;
    let mut kept = Vec::new();
    for (i, e) in events.iter().enumerate() {
        journal.extend(whole.on_event(e).unwrap().1);
        if i == 180 {
            resumed = Some(whole.clone());
            kept = journal.clone();
        }
    }
    let mut resumed = resumed.unwrap();
    let tail = events[181..].to_vec();
    kept.extend(replay::recover(&mut resumed, &tail).unwrap());
    assert_eq!(format!("{resumed:?}"), format!("{whole:?}"));
    assert_eq!(format!("{kept:?}"), format!("{journal:?}"));
    assert!(!kept.is_empty());
    assert_eq!(
        replay::recover(&mut resumed, &tail).unwrap_err(),
        Error::InvalidSequence
    );
}

#[test]
fn labels_come_a_second_later_within_an_epoch() {
    let c = config();
    let mut eng = Engine::new(c, vec![]).unwrap();
    let mut labeler = Labeler::new();
    let mut labels = Vec::new();
    for e in stream(80) {
        let ready = labeler.mature(&eng, e.recv_ns);
        for l in &ready {
            assert!(l.label_end_ns < e.recv_ns);
            assert_eq!(l.label_end_ns, l.recv_ns + SECOND);
            assert_eq!(l.epoch, eng.epoch);
        }
        labels.extend(ready);
        if let (Some(s), _) = eng.on_event(&e).unwrap() {
            labeler.keep(s);
        }
    }
    assert!(!labels.is_empty());
    assert_eq!(labels[0].asset, 0);
    assert_eq!(labels[1].asset, 1);
    assert_eq!(labels[0].target_bps, F(0.0));
    eng.on_event(&event(
        eng.last_seq + 1,
        7950,
        Kind::Disconnect {
            reason: "x".into(),
        },
    ))
    .unwrap();
    assert!(labeler.mature(&eng, event(1, 20000, Kind::Timer).recv_ns).is_empty());
    assert_eq!(replay::check_labels(0), Err(Error::NoLabels));
    assert_eq!(replay::check_labels(1), Ok(()));
    assert_eq!(replay::check_models(1), Err(Error::TooFewModels));
    assert_eq!(replay::check_models(2), Ok(()));
}

#[test]
fn a_moved_mid_gives_its_log_return() {
    let mut eng = Engine::new(config(), vec![]).unwrap();
    let mut labeler = Labeler::new();
    for e in stream(51) {
        if let (Some(s), _) = eng.on_event(&e).unwrap() {
            labeler.keep(s);
        }
    }
    for symbol in ["BTCUSDT", "ETHUSDT"] {
        let seq = eng.last_seq + 1;
        eng.on_event(&event(seq, 5400, depth(symbol, 62, 61))).unwrap();
    }
    let moved = Kind::Depth {
        symbol: "BTCUSDT".into(),
        first_id: 63,
        last_id: 63,
        prev_id: 62,
        bids: vec![[F(99.9), F(0.0)], [F(100.9), F(1.0)]],
        asks: vec![[F(100.1), F(0.0)], [F(101.1), F(1.0)]],
    };
    eng.on_event(&event(eng.last_seq + 1, 5900, moved)).unwrap();
    eng.on_event(&event(eng.last_seq + 1, 5900, depth("ETHUSDT", 63, 62)))
        .unwrap();
    let labels = labeler.mature(&eng, event(1, 6001, Kind::Timer).recv_ns);
    assert_eq!(labels.len(), 2);
    let mid = (1009.0 * 0.1 + 1011.0 * 0.1) / 2.0;
    let expected = 10000.0 * f64::ln(mid / labels[0].mid.0);
    assert_eq!(labels[0].target_bps, F(expected));
    assert_eq!(labels[1].target_bps, F(0.0));
}

#[test]
fn an_evaluation_uses_its_models_from_its_start_to_its_end() {
    let events = stream(100);
    let t = |ms| event(1, ms, Kind::Timer).recv_ns;
    let mut m = model();
    m.selected_through_ns = t(7000);
    let e = Replay::new(config(), vec![m.clone()], Some(t(7000)), None);
    assert!(matches!(e, Err(Error::SelectionUnfinished)));
    let mut wrong = model();
    wrong.version = 3;
    let e = Replay::new(config(), vec![wrong], None, None);
    assert!(matches!(e, Err(Error::UnsupportedModelContract)));
    let mut r = Replay::new(config(), vec![m], Some(t(8000)), Some(t(9000))).unwrap();
    let mut rows = 0;
    let mut over = 0;
    for e in &events {
        match r.step(e).unwrap() {
            None => over += 1,
            Some(list) => {
                if e.recv_ns < t(8000) {
                    assert!(list.is_empty());
                    assert!(r.engine.models.is_empty());
                    assert_eq!(r.engine.broker.turnover, F(0.0));
                }
                rows += list.len();
            }
        }
    }
    assert!(rows > 0);
    assert_eq!(r.samples, 11);
    assert_eq!(over, 27);
    assert!(r.engine.broker.turnover > F(0.0));
}

#[test]
fn a_synthetic_market_keeps_both_books_valid() {
    let c = config();
    let mut eng = Engine::new(c.clone(), vec![]).unwrap();
    let opening = synthetic::opening::<F>(&c.symbols);
    assert_eq!(opening.len(), 6);
    for e in &opening {
        eng.on_event(e).unwrap();
    }
    let mut last = [F(60000.0), F(3000.0)];
    for f in 0..70u64 {
        let wave = [F((f as f64 / 17.0).sin() * 200.0), F((f as f64 / 17.0).sin() * 12.0)];
        let tilt = [F(0.25), F(-0.25)];
        let events = synthetic::next_frame(&c.symbols, f, &mut last, wave, tilt);
        assert_eq!(events.len(), 5);
        assert_eq!(events[4].seq, 5 * f + 11);
        assert_eq!(events[0].recv_ns, 1_700_000_000_000_000_000 + f * 100 * MS);
        for e in &events {
            eng.on_event(e).unwrap();
        }
        assert_eq!(last[0], F(((60000.0 + wave[0].0) * 10.0).round() / 10.0));
    }
    assert_eq!(eng.gaps, 0);
    assert!(eng.valid_at(eng.now));
    let top = eng.books[0].top().unwrap();
    assert_eq!(top.1, F(2.25));
    assert_eq!(top.3, F(1.75));
    assert_eq!(synthetic::check_fixture(86400), Ok(()));
    assert_eq!(synthetic::check_fixture(86401), Err(Error::FixtureTooLong));
}

#[test]
fn benchmarks_are_paced_and_counted() {
    assert_eq!(synthetic::check_benchmark(1000, 1), Ok(()));
    assert_eq!(synthetic::check_benchmark(999, 1), Err(Error::BenchmarkTooSmall));
    assert_eq!(synthetic::check_benchmark(1000, 0), Err(Error::BenchmarkTooSmall));
    assert_eq!(synthetic::deadline_ns(3, 2), 1_500_000_000);
    let models = synthetic::benchmark_models(&config());
    assert_eq!(models.len(), 2);
    assert_eq!(models[1].predict(&vec![F(9.0); 37]), F(20.0));
    let mut eng = Engine::new(config(), models).unwrap();
    let mut decisions = 0;
    let mut samples = 0;
    for e in stream(60) {
        let previous = eng.last_sample_ns;
        samples += usize::from(eng.on_event(&e).unwrap().0.is_some());
        decisions += usize::from(synthetic::is_decision(&eng, previous, e.recv_ns));
    }
    assert_eq!(decisions, samples);
    assert!(samples > 0);
}

#[test]
fn texts_are_searched_and_parsed() {
    assert_eq!(text::parse_unsigned("+42"), Some(42));
    assert_eq!(text::parse_unsigned("18446744073709551615"), Some(u64::MAX));
    assert_eq!(text::parse_unsigned("18446744073709551616"), None);
    assert_eq!(text::parse_unsigned(""), None);
    assert_eq!(text::lowercase("BTC-Usd"), "btc-usd");
    let list = vec!["a".to_string(), "b".to_string()];
    assert_eq!(text::find_text(&list, "b"), Some(1));
    assert_eq!(text::find_text(&list, "c"), None);
    assert_eq!(text::join(&list, "/"), "a/b");
    assert_eq!(text::prefix_before("a.b.c", '.'), Some("a".to_string()));
    assert!(text::all_hex("0aF", 3));
}

#[test]
fn refusals_have_words() {
    assert_eq!(Error::SequenceGap.message(), "sequence gap");
    assert_eq!(Error::MissingMetadata.message(), "missing metadata");
    assert_eq!(
        Error::ExistingArtifacts.message(),
        "existing run artifacts; use a new log path or --resume"
    );
}

#[test]
fn the_stop_sends_what_is_held_on_its_way_out() {
    let c = config();
    let mut b = Broker::new(c.equity);
    let books = [book(), book()];
    b.on_event(&event(1, 0, Kind::Timer), &books, &c, None, true)
        .unwrap();
    b.positions[1].qty = F(2.0);
    b.positions[1].entry = F(100.0);
    b.positions[1].exit_due_ns = u64::MAX;
    b.cash = F(9800.0);
    let rows = b
        .on_event(&event(2, 1, Kind::Timer), &books, &c, None, true)
        .unwrap();
    assert!(b.stopped);
    assert_eq!(rows[0].action, "exit_submitted");
    assert_eq!(rows[0].reason, "daily loss stop");
    let o = b.pending[1].unwrap();
    assert!(o.reduce);
    assert_eq!((o.side, o.qty), (F(-1.0), F(2.0)));
}

#[test]
fn an_entry_must_exceed_its_costs() {
    let c = config();
    let mut b = Broker::new(c.equity);
    let books = [book(), book()];
    let e = event(1, 0, Kind::Timer);
    b.on_event(&e, &books, &c, None, true).unwrap();
    // The spread is 20 basis points, and the fees are 10.
    assert_eq!(b.decide(0, F(29.9), F(0.0), &e, &books, &c).len(), 1);
    assert_eq!(b.decide(0, F(30.9), F(1.0), &e, &books, &c).len(), 1);
    assert!(b.pending[0].is_none());
    let rows = b.decide(0, F(-30.1), F(0.0), &e, &books, &c);
    assert!((rows[1].value.0 - 30.0).abs() < 1e-9);
    assert_eq!(rows[1].qty, F(-1.0));
    assert_eq!(b.pending[0].unwrap().side, F(-1.0));
}

#[test]
fn an_entry_that_would_break_a_limit_at_its_fill_is_rejected() {
    let mut c = config();
    c.gross_cap = F(100.0);
    let mut b = Broker::new(c.equity);
    let mut books = [book(), book()];
    let e = event(1, 0, Kind::Timer);
    b.on_event(&e, &books, &c, None, true).unwrap();
    b.decide(0, F(100.0), F(0.0), &e, &books, &c);
    assert!(b.pending[0].is_some());
    books[0].updated_ns = e.recv_ns + 50 * MS;
    let rows = b
        .on_event(&event(2, 50, depth("BTCUSDT", 12, 11)), &books, &c, Some(0), true)
        .unwrap();
    assert_eq!(rows[0].action, "reject");
    assert_eq!(b.positions[0].qty, F(0.0));
    assert!(b.pending[0].is_none());
    assert_eq!(b.per_symbol[0].rejected, 1);
}

#[test]
fn an_evaluation_takes_any_number_of_models_of_an_asset() {
    let t = |ms| event(1, ms, Kind::Timer).recv_ns;
    let models = vec![model(), model(), model()];
    let mut r = Replay::new(config(), models, Some(t(6000)), None).unwrap();
    let mut predictions = 0;
    for e in &stream(70) {
        let rows = r.step(e).unwrap().unwrap();
        predictions += rows.iter().filter(|j| j.action == "prediction").count();
    }
    assert_eq!(r.engine.models.len(), 3);
    assert_eq!(r.samples, 10);
    assert_eq!(predictions, 30);
    let mut other = model();
    other.symbol = "XRPUSDT".into();
    let refused = Replay::new(config(), vec![other], None, None);
    assert!(refused.is_err());
    assert!(Engine::new(config(), vec![model(), model()]).is_err());
}

#[test]
fn labels_come_out_even_where_the_event_is_refused() {
    let mut eng = Engine::new(config(), vec![]).unwrap();
    let mut waiting = Labeler::new();
    let mut early = 0;
    for e in stream(60) {
        let (labels, outcome) = replay::label_step(&mut waiting, &mut eng, &e);
        assert_eq!(outcome, Ok(()));
        early += labels.len();
    }
    assert_eq!(early, 0);
    let mut bad = event(eng.last_seq + 1, 6050, Kind::Timer);
    bad.version = 9;
    let (labels, outcome) = replay::label_step(&mut waiting, &mut eng, &bad);
    assert_eq!(outcome, Err(Error::InvalidSequence));
    assert_eq!(labels.len(), 2);
    assert_eq!(labels[0].label_end_ns, event(1, 6000, Kind::Timer).recv_ns);
    let (again, _) = replay::label_step(&mut waiting, &mut eng, &bad);
    assert!(again.is_empty());
}

#[test]
fn a_frame_must_fit_the_clock() {
    assert!(synthetic::has_frame(864_000));
    assert!(synthetic::has_frame(167_467_440_737));
    assert!(!synthetic::has_frame(167_467_440_738));
    assert!(!synthetic::has_frame(u64::MAX));
}

#[test]
fn the_results_of_both_assets_add_up_to_the_totals() {
    let mut second = model();
    second.symbol = "ETHUSDT".into();
    let mut eng = Engine::new(config(), vec![model(), second]).unwrap();
    let close = |a: F, b: F, total: F| (a.0 + b.0 - total.0).abs() < 1e-9;
    for e in stream(120) {
        eng.on_event(&e).unwrap();
        let b = &eng.broker;
        let (x, y) = (&b.per_symbol[0], &b.per_symbol[1]);
        assert!(close(x.realized, y.realized, b.realized));
        assert!(close(x.funding, y.funding, b.funding));
        assert!(close(x.fees, y.fees, b.fees));
        assert!(close(x.turnover, y.turnover, b.turnover));
        assert!(close(x.slippage, y.slippage, b.slippage));
        assert_eq!(x.rejected + y.rejected, b.rejected);
    }
    assert!(eng.broker.per_symbol[0].fees > F(0.0));
    assert!(eng.broker.per_symbol[1].fees > F(0.0));
}

#[test]
fn accepted_events_keep_books_regular() {
    let mut b = Book::default();
    let removing = Kind::Depth {
        symbol: "BTCUSDT".into(),
        first_id: 12,
        last_id: 12,
        prev_id: 11,
        bids: vec![[F(99.8), F(3.0)], [F(99.9), F(0.0)]],
        asks: vec![],
    };
    let kinds = vec![
        metadata("BTCUSDT"),
        depth("BTCUSDT", 11, 10),
        snapshot("BTCUSDT"),
        removing,
        depth("BTCUSDT", 20, 19),
        snapshot("BTCUSDT"),
    ];
    let mut generations = Vec::new();
    for (i, k) in kinds.into_iter().enumerate() {
        let before = b.generation;
        b.apply(&event(i as u64 + 1, i as u64, k)).unwrap();
        assert!(before <= b.generation && b.generation <= before + 2);
        assert!(b.bids.values().chain(b.asks.values()).all(|q| *q > F(0.0)));
        assert!(b.last_id.is_none() || b.buffer.is_empty());
        if b.synced {
            let best = b.bids.keys().next_back().unwrap();
            assert!(best < b.asks.keys().next().unwrap());
        }
        generations.push(b.generation);
    }
    assert_eq!(generations, vec![0, 0, 1, 1, 2, 4]);
}

#[test]
fn lost_health_starts_an_epoch_and_silences_the_models() {
    let mut eng = Engine::new(config(), vec![model()]).unwrap();
    for e in stream(60) {
        let epoch = eng.epoch;
        eng.on_event(&e).unwrap();
        assert!(eng.epoch >= epoch);
        assert!(eng.healthy_since.is_none() || eng.valid_at(eng.now));
    }
    let epoch = eng.epoch;
    assert!(eng.healthy_since.is_some());
    let late = event(eng.last_seq + 1, 6500, Kind::Timer);
    let (sample, rows) = eng.on_event(&late).unwrap();
    assert!(!eng.valid_at(eng.now));
    assert!(sample.is_none());
    assert!(rows.iter().all(|r| r.action != "prediction" && r.action != "entry_submitted"));
    assert_eq!(eng.healthy_since, None);
    assert!(eng.epoch > epoch);
    assert!(eng.histories[0].mids.is_empty() && eng.histories[1].mids.is_empty());
}

#[test]
fn invalid_data_takes_an_entry_away_and_says_so() {
    let c = config();
    let mut b = Broker::new(c.equity);
    let books = [book(), book()];
    let e = event(1, 0, Kind::Timer);
    b.on_event(&e, &books, &c, None, true).unwrap();
    b.decide(1, F(100.0), F(0.0), &e, &books, &c);
    assert!(b.pending[1].is_some());
    let rows = b
        .on_event(&event(2, 10, Kind::Timer), &books, &c, None, false)
        .unwrap();
    assert!(b.pending[1].is_none());
    assert_eq!(rows.len(), 1);
    assert_eq!(rows[0].symbol, "ETHUSDT");
    assert_eq!(rows[0].action, "cancel");
    assert_eq!(rows[0].reason, "invalid data or daily loss stop");
}

#[test]
fn a_loss_of_exactly_the_limit_sets_the_stop() {
    let c = config();
    let books = [book(), book()];
    for (cash, stopped) in [(9900.5, false), (9900.0, true)] {
        let mut b = Broker::new(c.equity);
        b.on_event(&event(1, 0, Kind::Timer), &books, &c, None, true)
            .unwrap();
        b.cash = F(cash);
        b.on_event(&event(2, 1, Kind::Timer), &books, &c, None, true)
            .unwrap();
        assert_eq!(b.stopped, stopped);
    }
}

fn decimal_config() -> Config<Fixed> {
    let c = config();
    Config {
        venue: c.venue,
        symbols: c.symbols,
        public_ws: c.public_ws,
        market_ws: c.market_ws,
        rest_url: c.rest_url,
        stale_ms: c.stale_ms,
        warmup_ms: c.warmup_ms,
        decision_ms: c.decision_ms,
        horizon_ms: c.horizon_ms,
        latency_ms: c.latency_ms,
        fee_bps: fixed("5"),
        equity: fixed("10000"),
        entry_notional: fixed("100"),
        gross_cap: fixed("1000"),
        daily_loss: fixed("100"),
        queue_capacity: c.queue_capacity,
        checkpoint_ms: c.checkpoint_ms,
        model_paths: c.model_paths,
    }
}

fn decimal_event(seq: u64, ms: u64, kind: Kind<Fixed>) -> Event<Fixed> {
    let e = event(seq, ms, Kind::Timer);
    Event {
        version: e.version,
        session: e.session,
        seq: e.seq,
        recv_ns: e.recv_ns,
        utc_ns: e.utc_ns,
        exchange_ns: e.exchange_ns,
        raw: e.raw,
        kind,
    }
}

fn decimal_book(bids: Vec<[Fixed; 2]>) -> Book<Fixed> {
    let mut b = Book::default();
    let asks = vec![[fixed("100.1"), fixed("10")]];
    let kinds = vec![
        Kind::Metadata {
            symbol: "BTCUSDT".into(),
            tick: fixed("0.1"),
            step: fixed("0.001"),
            min_qty: fixed("0.001"),
            min_notional: fixed("5"),
        },
        Kind::Snapshot {
            symbol: "BTCUSDT".into(),
            last_id: 10,
            bids: bids.clone(),
            asks: asks.clone(),
        },
        Kind::Depth {
            symbol: "BTCUSDT".into(),
            first_id: 10,
            last_id: 11,
            prev_id: 10,
            bids,
            asks,
        },
    ];
    for (i, k) in kinds.into_iter().enumerate() {
        b.apply(&decimal_event(i as u64 + 1, 0, k)).unwrap();
    }
    b
}

#[test]
fn a_level_serves_once_and_the_exit_stays_for_the_rest() {
    let c = decimal_config();
    let mut b = Broker::new(c.equity);
    let thin = vec![
        [fixed("99.9"), fixed("0.25")],
        [fixed("99.8"), fixed("0.5")],
    ];
    let mut books = [decimal_book(thin.clone()), decimal_book(thin)];
    b.on_event(&decimal_event(1, 0, Kind::Timer), &books, &c, None, true)
        .unwrap();
    b.positions[0].qty = fixed("2");
    b.positions[0].entry = fixed("100");
    b.on_event(&decimal_event(2, 10, Kind::Timer), &books, &c, None, true)
        .unwrap();
    let o = b.pending[0].unwrap();
    assert_eq!((o.side, o.qty, o.reduce), (fixed("-1"), fixed("2"), true));
    let quiet = |last: u64| Kind::Depth {
        symbol: "BTCUSDT".into(),
        first_id: last,
        last_id: last,
        prev_id: last - 1,
        bids: vec![],
        asks: vec![],
    };
    books[0].updated_ns = decimal_event(1, 60, Kind::Timer).recv_ns;
    let rows = b
        .on_event(&decimal_event(3, 60, quiet(12)), &books, &c, Some(0), true)
        .unwrap();
    assert_eq!(rows[0].action, "fill");
    assert_eq!(rows[0].qty, fixed("-0.75"));
    assert_eq!(b.positions[0].qty, fixed("1.25"));
    assert_eq!(b.consumed[0].get(&999), Some(&fixed("0.25")));
    assert_eq!(b.consumed[0].get(&998), Some(&fixed("0.5")));
    let o = b.pending[0].unwrap();
    assert_eq!((o.side, o.qty, o.reduce), (fixed("-1"), fixed("1.25"), true));
    books[0].updated_ns = decimal_event(1, 120, Kind::Timer).recv_ns;
    let rows = b
        .on_event(&decimal_event(4, 120, quiet(13)), &books, &c, Some(0), true)
        .unwrap();
    assert!(rows.iter().all(|r| r.action != "fill"));
    assert_eq!(b.positions[0].qty, fixed("1.25"));
    assert_eq!(b.consumed[0].get(&999), Some(&fixed("0.25")));
    assert_eq!(b.pending[0].unwrap().qty, fixed("1.25"));
}

#[test]
fn forgotten_mids_change_no_feature() {
    let mut b = book();
    let mut short: History<F> = History::default();
    let mut full: History<F> = History::default();
    let mut now = 0;
    for i in 0..200u64 {
        now = event(1, i * 100, Kind::Timer).recv_ns;
        b.bids.insert(1000 - (i as i64 % 7) * 3, F(1.0 + (i % 5) as f64));
        short.sample(now, &b);
        full.mids.push_back((now, b.mid().unwrap()));
        b.bids.remove(&(1000 - (i as i64 % 7) * 3));
        b.bids.insert(999, F(10.0));
    }
    assert!(short.mids.len() < full.mids.len());
    let v = short.vector(now, &b).unwrap();
    assert_eq!(v, full.vector(now, &b).unwrap());
    assert!(v.iter().any(|x| *x != F(0.0)));
    let young = event(1, 4999, Kind::Timer).recv_ns;
    let mut new: History<F> = History::default();
    new.sample(event(1, 0, Kind::Timer).recv_ns, &b);
    assert!(new.vector(young, &b).is_none());
    assert!(new.vector(young + MS, &b).is_some());
}

#[test]
fn decimal_texts_are_read_as_the_nearest_number() {
    let units = |text: &str| Fixed::parse(&text.to_string()).map(|x| x.units);
    for (text, expected) in [
        ("5", 5_000_000_000),
        ("+5", 5_000_000_000),
        ("-5", -5_000_000_000),
        ("5.", 5_000_000_000),
        (".5", 500_000_000),
        ("-.5", -500_000_000),
        ("1e2", 100_000_000_000),
        ("1.5E+1", 15_000_000_000),
        ("25e-1", 2_500_000_000),
        ("0.1234567894", 123_456_789),
        ("0.1234567895", 123_456_790),
        ("-0.1234567895", -123_456_790),
        ("0.0000000005", 1),
        ("4e-10", 0),
        ("5e-10", 1),
        ("9e-11", 0),
        ("1e-99999999999999999999999999999999999999", 0),
        ("0e99999999999999999999999999999999999999", 0),
        ("1e99999999999999999999999999999999999999", i64::MAX),
        ("9223372036.854775807", i64::MAX),
        ("9223372036.854775808", i64::MAX),
        ("-9223372036.854775808", i64::MIN),
        ("-1e10", i64::MIN),
        ("000000000000000000000000000001.5", 1_500_000_000),
        ("0", 0),
        ("-0", 0),
    ] {
        assert_eq!(units(text), Some(expected), "{text}");
        assert!(text.parse::<f64>().is_ok());
    }
    for text in [
        "", ".", "+", "-", "e5", "5e", "5e+", "+-5", "1.2.3", "1e2e3", "1e2.5", " 5", "5 ", "0x5",
        "1_000",
    ] {
        assert_eq!(units(text), None, "{text}");
        assert!(text.parse::<f64>().is_err());
    }
    assert_eq!(units("inf"), None);
    assert_eq!(units("NaN"), None);
}
