use microengine::book::Book;
use microengine::config::{default_checkpoint_ms, Config, Venue};
use microengine::engine::Engine;
use microengine::features;
use microengine::features::History;
use microengine::io;
use microengine::json::{read_json, Json};
use microengine::model::Model;
use microengine::number::Real;
use microengine::paper::Broker;
use microengine::types::{Event, Kind, MS};
use microengine::venue::coinbase;

/// Double-precision numbers.
#[derive(Clone, Copy, Debug, PartialEq, PartialOrd)]
struct F(f64);

impl Real for F {
    fn spec_from_i64(n: i64) -> F {
        F::from_i64(n)
    }
    fn from_i64(n: i64) -> F {
        F(n as f64)
    }
    fn spec_from_u64(n: u64) -> F {
        F::from_u64(n)
    }
    fn from_u64(n: u64) -> F {
        F(n as f64)
    }
    fn spec_parse(text: &String) -> Option<F> {
        F::parse(text)
    }
    fn parse(text: &String) -> Option<F> {
        text.parse().ok().map(F)
    }
    fn spec_plus(self, o: F) -> F {
        self.plus(o)
    }
    fn plus(self, o: F) -> F {
        F(self.0 + o.0)
    }
    fn spec_minus(self, o: F) -> F {
        self.minus(o)
    }
    fn minus(self, o: F) -> F {
        F(self.0 - o.0)
    }
    fn spec_times(self, o: F) -> F {
        self.times(o)
    }
    fn times(self, o: F) -> F {
        F(self.0 * o.0)
    }
    fn spec_over(self, o: F) -> F {
        self.over(o)
    }
    fn over(self, o: F) -> F {
        F(self.0 / o.0)
    }
    fn spec_negated(self) -> F {
        self.negated()
    }
    fn negated(self) -> F {
        F(-self.0)
    }
    fn spec_magnitude(self) -> F {
        self.magnitude()
    }
    fn magnitude(self) -> F {
        F(self.0.abs())
    }
    fn spec_larger(self, o: F) -> F {
        self.larger(o)
    }
    fn larger(self, o: F) -> F {
        F(self.0.max(o.0))
    }
    fn spec_smaller(self, o: F) -> F {
        self.smaller(o)
    }
    fn smaller(self, o: F) -> F {
        F(self.0.min(o.0))
    }
    fn spec_sign(self) -> F {
        self.sign()
    }
    fn sign(self) -> F {
        F(self.0.signum())
    }
    fn spec_floored(self) -> F {
        self.floored()
    }
    fn floored(self) -> F {
        F(self.0.floor())
    }
    fn spec_rounded(self) -> F {
        self.rounded()
    }
    fn rounded(self) -> F {
        F(self.0.round())
    }
    fn spec_log(self) -> F {
        self.log()
    }
    fn log(self) -> F {
        F(self.0.ln())
    }
    fn spec_root(self) -> F {
        self.root()
    }
    fn root(self) -> F {
        F(self.0.sqrt())
    }
    fn spec_to_i64(self) -> i64 {
        self.to_i64()
    }
    fn to_i64(self) -> i64 {
        self.0 as i64
    }
    fn spec_below(self, o: F) -> bool {
        self.below(o)
    }
    fn below(self, o: F) -> bool {
        self.0 < o.0
    }
    fn spec_within(self, o: F) -> bool {
        self.within(o)
    }
    fn within(self, o: F) -> bool {
        self.0 <= o.0
    }
    fn spec_same(self, o: F) -> bool {
        self.same(o)
    }
    fn same(self, o: F) -> bool {
        self.0 == o.0
    }
    fn spec_is_finite(self) -> bool {
        self.is_finite()
    }
    fn is_finite(self) -> bool {
        self.0.is_finite()
    }
}

fn config() -> Config<F> {
    Config {
        venue: Venue::BinanceUsdm,
        symbols: vec!["BTCUSDT".into(), "ETHUSDT".into()],
        public_ws: "wss://public.example/stream".into(),
        market_ws: "wss://market.example/stream".into(),
        rest_url: "https://rest.example".into(),
        stale_ms: 500,
        warmup_ms: 5000,
        decision_ms: 100,
        horizon_ms: 1000,
        latency_ms: 50,
        fee_bps: F(5.0),
        equity: F(10000.0),
        entry_notional: F(100.0),
        gross_cap: F(1000.0),
        daily_loss: F(100.0),
        queue_capacity: 8192,
        checkpoint_ms: default_checkpoint_ms(),
        model_paths: vec![],
    }
}

fn coinbase_config() -> Config<F> {
    Config {
        venue: Venue::CoinbaseSpot,
        symbols: vec!["BTC-USD".into(), "ETH-USD".into()],
        ..config()
    }
}

fn event(seq: u64, ms: u64, kind: Kind<F>) -> Event<F> {
    Event {
        version: 1,
        session: "test".into(),
        seq,
        recv_ns: 1_700_000_000_000_000_000 + ms * MS,
        utc_ns: 1_700_000_000_000_000_000 + ms * MS,
        exchange_ns: None,
        raw: None,
        kind,
    }
}

fn metadata(s: &str) -> Kind<F> {
    Kind::Metadata {
        symbol: s.into(),
        tick: F(0.1),
        step: F(0.001),
        min_qty: F(0.001),
        min_notional: F(5.0),
    }
}

fn snapshot(s: &str) -> Kind<F> {
    Kind::Snapshot {
        symbol: s.into(),
        last_id: 10,
        bids: vec![[F(99.9), F(10.0)]],
        asks: vec![[F(100.1), F(10.0)]],
    }
}

fn depth(s: &str, last: u64, prev: u64) -> Kind<F> {
    Kind::Depth {
        symbol: s.into(),
        first_id: if last == 11 { 10 } else { last },
        last_id: last,
        prev_id: prev,
        bids: vec![[F(99.9), F(10.0)]],
        asks: vec![[F(100.1), F(10.0)]],
    }
}

fn book() -> Book<F> {
    let mut b = Book::default();
    for (i, k) in [
        metadata("BTCUSDT"),
        snapshot("BTCUSDT"),
        depth("BTCUSDT", 11, 10),
    ]
    .into_iter()
    .enumerate()
    {
        b.apply(&event(i as u64 + 1, 0, k)).unwrap();
    }
    b
}

fn stream(frames: u64) -> Vec<Event<F>> {
    let mut out = Vec::new();
    let mut add = |ms, k| out.push(event(out.len() as u64 + 1, ms, k));
    for source in ["public", "market"] {
        add(
            0,
            Kind::Connection {
                source: source.into(),
                connected: true,
            },
        );
    }
    for s in ["BTCUSDT", "ETHUSDT"] {
        add(0, metadata(s));
        add(0, snapshot(s));
    }
    for i in 0..frames {
        for s in ["BTCUSDT", "ETHUSDT"] {
            add(i * 100, depth(s, 11 + i, 10 + i));
        }
        add(i * 100, Kind::Timer);
    }
    out
}

fn coinbase_l2(symbol: &str, msg_type: &str, seq_num: u64) -> Json {
    let text = format!(
        r#"{{
            "channel": "l2_data",
            "sequence_num": {seq_num},
            "events": [{{
                "type": "{msg_type}",
                "product_id": "{symbol}",
                "updates": [
                    {{"side": "bid", "price_level": "99.9", "new_quantity": "10"}},
                    {{"side": "offer", "price_level": "100.1", "new_quantity": "10"}}
                ]
            }}]
        }}"#
    );
    read_json(&text).unwrap()
}

fn coinbase_stream(frames: u64) -> Vec<Event<F>> {
    let mut decoder = coinbase::Decoder::default();
    let mut out = Vec::new();
    let mut add = |ms, k| out.push(event(out.len() as u64 + 1, ms, k));
    for source in ["public", "market"] {
        add(
            0,
            Kind::Connection {
                source: source.into(),
                connected: true,
            },
        );
    }
    for s in ["BTC-USD", "ETH-USD"] {
        add(0, metadata(s));
    }
    let mut seq_num = 0u64;
    for s in ["BTC-USD", "ETH-USD"] {
        seq_num += 1;
        let (kind, _) = decoder
            .decode(&coinbase_l2(s, "snapshot", seq_num))
            .unwrap()
            .remove(0);
        add(0, kind);
    }
    for i in 0..frames {
        for s in ["BTC-USD", "ETH-USD"] {
            seq_num += 1;
            let (kind, _) = decoder
                .decode(&coinbase_l2(s, "update", seq_num))
                .unwrap()
                .remove(0);
            add(i * 100, kind);
        }
        add(i * 100, Kind::Timer);
    }
    out
}

fn model() -> Model<F> {
    Model {
        version: 1,
        symbol: "BTCUSDT".into(),
        features: features::names(&config().symbols),
        mean: vec![F(0.0); 37],
        scale: vec![F(1.0); 37],
        coefficients: vec![F(0.0); 37],
        intercept: F(100.0),
        horizon_ms: 1000,
        trained_through_ns: 0,
        selected_through_ns: 0,
        dataset_sha256: "0".repeat(64),
        entry_buffer_bps: F(0.0),
        alpha: F(1.0),
    }
}

#[test]
fn engine_accepts_a_coinbase_configuration() {
    assert!(Engine::new(coinbase_config(), vec![]).is_ok());
}

#[test]
fn engine_validates_model_feature_names_against_venue_symbols() {
    let cb = coinbase_config();
    let mut coinbase_model = model();
    coinbase_model.symbol = "BTC-USD".into();
    coinbase_model.features = features::names(&cb.symbols);
    assert!(Engine::new(cb.clone(), vec![coinbase_model]).is_ok());

    let binance_model = model();
    assert!(Engine::new(cb, vec![binance_model]).is_err());
}

#[test]
fn coinbase_sequence_stays_valid_and_emits_samples_after_warmup() {
    let mut eng = Engine::new(coinbase_config(), vec![]).unwrap();
    let mut samples = 0;
    for e in coinbase_stream(60) {
        if eng.on_event(&e).unwrap().0.is_some() {
            samples += 1;
        }
    }
    assert!(eng.valid_at(eng.now));
    assert!(samples > 0);
}

#[test]
fn coinbase_buy_trade_pushes_100ms_trade_flow_negative() {
    let mut eng = Engine::new(coinbase_config(), vec![]).unwrap();
    let mut seq = 0u64;
    for e in coinbase_stream(60) {
        seq = e.seq;
        eng.on_event(&e).unwrap();
    }
    let trade_raw = read_json(
        r#"{
            "channel": "market_trades",
            "sequence_num": 1,
            "events": [{
                "type": "update",
                "trades": [{"product_id": "BTC-USD", "trade_id": "1", "price": "100", "size": "0.5", "side": "BUY"}]
            }]
        }"#,
    )
    .unwrap();
    let (trade_kind, _) = coinbase::Decoder::default()
        .decode(&trade_raw)
        .unwrap()
        .remove(0);
    seq += 1;
    eng.on_event(&event(seq, 6010, trade_kind)).unwrap();
    seq += 1;
    let (sample, _) = eng.on_event(&event(seq, 6090, Kind::Timer)).unwrap();
    let names = features::names(&coinbase_config().symbols);
    let idx = names
        .iter()
        .position(|n| n == "BTC-USD.trade_flow_100ms")
        .unwrap();
    assert_eq!(sample.unwrap().features[idx], F(-1.0));
}

#[test]
fn snapshot_bridge_duplicates_gap_and_deletion() {
    let mut b = book();
    assert!(b.synced);
    b.apply(&event(4, 100, depth("BTCUSDT", 11, 10))).unwrap();
    assert_eq!(b.updated_ns, event(1, 0, Kind::Timer).recv_ns);
    assert!(!b.apply(&event(5, 200, depth("BTCUSDT", 15, 13))).unwrap());
    assert!(!b.synced);
    assert_eq!(b.buffer.len(), 1);
    let snap = Kind::Snapshot {
        symbol: "BTCUSDT".into(),
        last_id: 15,
        bids: vec![[F(99.9), F(10.0)]],
        asks: vec![[F(100.1), F(10.0)]],
    };
    b.apply(&event(6, 300, snap)).unwrap();
    assert!(b.synced);
    let delete = Kind::Depth {
        symbol: "BTCUSDT".into(),
        first_id: 16,
        last_id: 16,
        prev_id: 15,
        bids: vec![
            [F(99.8), F(0.0)],
            [F(99.9), F(0.0)],
            [F(99.7), F(2.0)],
        ],
        asks: vec![],
    };
    b.apply(&event(7, 400, delete)).unwrap();
    assert_eq!(b.top().unwrap().0, F(99.7));
}

#[test]
fn buffered_snapshot_is_available_only_when_received() {
    let mut b: Book<F> = Book::default();
    b.apply(&event(1, 0, metadata("BTCUSDT"))).unwrap();
    b.apply(&event(2, 10, depth("BTCUSDT", 11, 10))).unwrap();
    assert!(!b.synced);
    b.apply(&event(3, 100, snapshot("BTCUSDT"))).unwrap();
    assert_eq!(b.updated_ns, event(3, 100, Kind::Timer).recv_ns);
    assert!(!b.fresh(event(2, 10, Kind::Timer).recv_ns, 500));
}

#[test]
fn prefix_invariance_and_exchange_timestamps_do_not_reorder_inputs() {
    let events = stream(100);
    let mut a = Engine::new(config(), vec![model()]).unwrap();
    let mut b = a.clone();
    let mut prefix = Vec::new();
    let mut other = Vec::new();
    for e in &events[..200] {
        prefix.push(format!("{:?}", a.on_event(e).unwrap()));
    }
    for e in &events[..200] {
        let mut changed = e.clone();
        changed.exchange_ns = Some(u64::MAX - e.seq);
        other.push(format!("{:?}", b.on_event(&changed).unwrap()));
    }
    assert_eq!(prefix, other);
    let before = prefix.clone();
    for e in &events[200..] {
        a.on_event(e).unwrap();
    }
    assert_eq!(prefix, before);
    assert!(a.broker.turnover > F(0.0));
}

#[test]
fn stale_or_disconnected_cross_asset_feed_stops_signals() {
    let mut eng = Engine::new(config(), vec![model()]).unwrap();
    for e in stream(70) {
        eng.on_event(&e).unwrap();
    }
    let seq = eng.last_seq + 1;
    let (s, _) = eng.on_event(&event(seq, 8000, Kind::Timer)).unwrap();
    assert!(s.is_none());
    assert!(eng.healthy_since.is_none());
    eng.on_event(&event(
        seq + 1,
        8100,
        Kind::Connection {
            source: "market".into(),
            connected: false,
        },
    ))
    .unwrap();
    assert!(!eng.valid_at(eng.now));
}

#[test]
fn artifact_validation_and_training_cutoff_are_enforced() {
    let mut m = model();
    m.scale[0] = F(0.0);
    assert!(m.validate(&config().symbols).is_err());
    m = model();
    m.features.swap(0, 1);
    assert!(m.validate(&config().symbols).is_err());
    m = model();
    m.selected_through_ns = u64::MAX;
    let mut eng = Engine::new(config(), vec![m]).unwrap();
    assert!(stream(70).iter().any(|e| eng.on_event(e).is_err()));
}

#[test]
fn delayed_fill_partial_exit_and_fees() {
    let c = config();
    let mut broker = Broker::new(c.equity);
    let mut books = [book(), book()];
    let e = event(1, 0, Kind::Timer);
    broker.on_event(&e, &books, &c, None, true).unwrap();
    broker.decide(0, F(100.0), F(0.0), &e, &books, &c);
    assert!(broker.pending[0].is_some());
    broker
        .on_event(
            &event(2, 49, depth("BTCUSDT", 12, 11)),
            &books,
            &c,
            Some(0),
            true,
        )
        .unwrap();
    assert_eq!(broker.positions[0].qty, F(0.0));
    books[0].updated_ns = event(3, 100, Kind::Timer).recv_ns;
    broker
        .on_event(
            &event(3, 100, depth("BTCUSDT", 12, 11)),
            &books,
            &c,
            Some(0),
            true,
        )
        .unwrap();
    assert_eq!(broker.positions[0].qty, F(1.0));
    assert!(broker.fees > F(0.0));
    books[0].updated_ns = event(4, 1100, Kind::Timer).recv_ns;
    broker
        .on_event(&event(4, 1100, Kind::Timer), &books, &c, None, true)
        .unwrap();
    assert!(broker.pending[0].as_ref().unwrap().reduce);
    books[0].bids.insert(999, F(0.4));
    books[0].updated_ns = event(5, 1200, Kind::Timer).recv_ns;
    broker
        .on_event(
            &event(5, 1200, depth("BTCUSDT", 13, 12)),
            &books,
            &c,
            Some(0),
            true,
        )
        .unwrap();
    assert!((broker.positions[0].qty.0 - 0.6).abs() < 1e-9);
    assert!(broker.pending[0].is_some());
    books[0].bids.insert(999, F(1.0));
    books[0].updated_ns = event(6, 1300, Kind::Timer).recv_ns;
    broker
        .on_event(
            &event(6, 1300, depth("BTCUSDT", 14, 13)),
            &books,
            &c,
            Some(0),
            true,
        )
        .unwrap();
    assert_eq!(broker.positions[0].qty, F(0.0));
    assert!(broker.realized < F(0.0));
}

#[test]
fn pending_exposure_and_loss_stop() {
    let mut c = config();
    c.gross_cap = F(100.0);
    let mut b = Broker::new(c.equity);
    let books = [book(), book()];
    let e = event(1, 0, Kind::Timer);
    b.on_event(&e, &books, &c, None, true).unwrap();
    b.decide(0, F(100.0), F(0.0), &e, &books, &c);
    b.decide(1, F(100.0), F(0.0), &e, &books, &c);
    assert!(b.pending[0].is_some());
    assert!(b.pending[1].is_none());
    assert_eq!(b.rejected, 1);
    b.cash = F(b.cash.0 - 101.0);
    b.on_event(&event(2, 1, Kind::Timer), &books, &c, None, true)
        .unwrap();
    assert!(b.stopped);
    assert!(b.pending[0].is_none());
}

#[test]
fn late_funding_uses_historical_position_once() {
    let c = config();
    let mut b = Broker::new(c.equity);
    let books = [book(), book()];
    let t = event(1, 0, Kind::Timer).utc_ns;
    b.position_history[0] = vec![(t, F(2.0)), (t + 200 * MS, F(0.0))];
    let k = Kind::Funding {
        symbol: "BTCUSDT".into(),
        funding_ns: t + 100 * MS,
        rate: F(0.001),
        mark: F(100.0),
    };
    b.on_event(&event(1, 300, k.clone()), &books, &c, None, true)
        .unwrap();
    b.on_event(&event(2, 400, k), &books, &c, None, true)
        .unwrap();
    assert!((b.funding.0 + 0.2).abs() < 1e-9);
}

#[test]
fn malformed_sequence_and_crossed_books_fail_closed() {
    let mut eng = Engine::new(config(), vec![]).unwrap();
    let e = stream(1).remove(0);
    eng.on_event(&e).unwrap();
    assert!(eng.on_event(&e).is_err());
    let mut b = book();
    let crossed = Kind::Depth {
        symbol: "BTCUSDT".into(),
        first_id: 12,
        last_id: 12,
        prev_id: 11,
        bids: vec![[F(100.2), F(1.0)]],
        asks: vec![],
    };
    assert!(!b.apply(&event(4, 100, crossed)).unwrap());
    assert!(!b.synced);
}

#[test]
fn duplicate_depth_does_not_replenish_consumed_liquidity() {
    let mut engine = Engine::new(config(), vec![]).unwrap();
    for e in stream(70) {
        engine.on_event(&e).unwrap();
    }
    engine.broker.consumed[1].insert(1001, F(3.0));
    let id = engine.books[0].last_id.unwrap();
    engine
        .on_event(&event(
            engine.last_seq + 1,
            6910,
            depth("BTCUSDT", id, id - 1),
        ))
        .unwrap();
    assert_eq!(engine.broker.consumed[1].get(&1001), Some(&F(3.0)));
}

#[test]
fn return_windows_use_book_events_between_timer_samples() {
    let mut b = book();
    let mut h = History::default();
    for i in 0..=50 {
        h.sample(event(1, i * 100, Kind::Timer).recv_ns, &b);
    }
    b.bids.clear();
    b.asks.clear();
    b.bids.insert(1009, F(10.0));
    b.asks.insert(1011, F(10.0));
    h.observe(&event(2, 5050, depth("BTCUSDT", 12, 11)), &b);
    b.bids.clear();
    b.asks.clear();
    b.bids.insert(1019, F(10.0));
    b.asks.insert(1021, F(10.0));
    h.observe(&event(3, 5150, depth("BTCUSDT", 13, 12)), &b);
    let now = event(4, 5150, Kind::Timer).recv_ns;
    h.sample(now, &b);
    let v = h.vector(now, &b).unwrap();
    assert!((v[7].0 - 10000.0 * (102.0_f64 / 101.0).ln()).abs() < 1e-8);
}

#[test]
fn failed_wal_write_never_advances_engine() {
    let mut engine = Engine::new(config(), vec![]).unwrap();
    let e = Event {
        version: 1,
        session: "test".into(),
        seq: 1,
        recv_ns: 1,
        utc_ns: 1,
        exchange_ns: None,
        raw: None,
        kind: Kind::Timer,
    };
    assert!(io::write_then_apply(false, &mut engine, &e).is_err());
    assert_eq!(engine.last_seq, 0);
    assert_eq!(engine.now, 0);
}
