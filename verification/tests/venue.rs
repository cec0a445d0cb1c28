use microengine::config::{default_checkpoint_ms, Config, Venue};
use microengine::engine::Engine;
use microengine::error::Error;
use microengine::feeds;
use microengine::json::{read_json, Json};
use microengine::number::Real;
use microengine::recorder;
use microengine::session::{
    anchor, checkpoint_due, funding_start, is_over, is_timely, stamp, Frame, Incoming, Input, Link,
    Reply, Session,
};
use microengine::types::{Event, Kind, MS, SECOND};
use microengine::venue::coinbase;
use microengine::venue::coinbase::Decoder;

/// Double-precision numbers.
#[derive(Clone, Copy, Debug, PartialEq, PartialOrd)]
struct F(f64);

impl Real for F {
    fn spec_from_i64(n: i64) -> F {
        F::from_i64(n)
    }
    fn from_i64(n: i64) -> F {
        F(n as f64)
    }
    fn spec_from_u64(n: u64) -> F {
        F::from_u64(n)
    }
    fn from_u64(n: u64) -> F {
        F(n as f64)
    }
    fn spec_parse(text: &String) -> Option<F> {
        F::parse(text)
    }
    fn parse(text: &String) -> Option<F> {
        text.parse().ok().map(F)
    }
    fn spec_plus(self, o: F) -> F {
        self.plus(o)
    }
    fn plus(self, o: F) -> F {
        F(self.0 + o.0)
    }
    fn spec_minus(self, o: F) -> F {
        self.minus(o)
    }
    fn minus(self, o: F) -> F {
        F(self.0 - o.0)
    }
    fn spec_times(self, o: F) -> F {
        self.times(o)
    }
    fn times(self, o: F) -> F {
        F(self.0 * o.0)
    }
    fn spec_over(self, o: F) -> F {
        self.over(o)
    }
    fn over(self, o: F) -> F {
        F(self.0 / o.0)
    }
    fn spec_negated(self) -> F {
        self.negated()
    }
    fn negated(self) -> F {
        F(-self.0)
    }
    fn spec_magnitude(self) -> F {
        self.magnitude()
    }
    fn magnitude(self) -> F {
        F(self.0.abs())
    }
    fn spec_larger(self, o: F) -> F {
        self.larger(o)
    }
    fn larger(self, o: F) -> F {
        F(self.0.max(o.0))
    }
    fn spec_smaller(self, o: F) -> F {
        self.smaller(o)
    }
    fn smaller(self, o: F) -> F {
        F(self.0.min(o.0))
    }
    fn spec_sign(self) -> F {
        self.sign()
    }
    fn sign(self) -> F {
        F(self.0.signum())
    }
    fn spec_floored(self) -> F {
        self.floored()
    }
    fn floored(self) -> F {
        F(self.0.floor())
    }
    fn spec_rounded(self) -> F {
        self.rounded()
    }
    fn rounded(self) -> F {
        F(self.0.round())
    }
    fn spec_log(self) -> F {
        self.log()
    }
    fn log(self) -> F {
        F(self.0.ln())
    }
    fn spec_root(self) -> F {
        self.root()
    }
    fn root(self) -> F {
        F(self.0.sqrt())
    }
    fn spec_to_i64(self) -> i64 {
        self.to_i64()
    }
    fn to_i64(self) -> i64 {
        self.0 as i64
    }
    fn spec_below(self, o: F) -> bool {
        self.below(o)
    }
    fn below(self, o: F) -> bool {
        self.0 < o.0
    }
    fn spec_within(self, o: F) -> bool {
        self.within(o)
    }
    fn within(self, o: F) -> bool {
        self.0 <= o.0
    }
    fn spec_same(self, o: F) -> bool {
        self.same(o)
    }
    fn same(self, o: F) -> bool {
        self.0 == o.0
    }
    fn spec_is_finite(self) -> bool {
        self.is_finite()
    }
    fn is_finite(self) -> bool {
        self.0.is_finite()
    }
}

fn json(text: &str) -> Json {
    read_json(text).unwrap()
}

fn config() -> Config<F> {
    Config {
        venue: Venue::BinanceUsdm,
        symbols: vec!["BTCUSDT".into(), "ETHUSDT".into()],
        public_ws: "wss://public.example/stream".into(),
        market_ws: "wss://market.example/stream".into(),
        rest_url: "https://rest.example".into(),
        stale_ms: 500,
        warmup_ms: 5000,
        decision_ms: 100,
        horizon_ms: 1000,
        latency_ms: 50,
        fee_bps: F(5.0),
        equity: F(10000.0),
        entry_notional: F(100.0),
        gross_cap: F(1000.0),
        daily_loss: F(100.0),
        queue_capacity: 8192,
        checkpoint_ms: default_checkpoint_ms(),
        model_paths: vec![],
    }
}

fn coinbase_config() -> Config<F> {
    Config {
        venue: Venue::CoinbaseSpot,
        symbols: vec!["BTC-USD".into(), "ETH-USD".into()],
        ..config()
    }
}

fn decode(raw: &Json) -> Result<Vec<(Kind<F>, Option<u64>)>, Error> {
    Decoder::default().decode(raw)
}

#[test]
fn l2_snapshot_maps_bid_to_bids_and_offer_to_asks() {
    let raw = json(
        r#"{
            "channel": "l2_data",
            "sequence_num": 0,
            "events": [{
                "type": "snapshot",
                "product_id": "BTC-USD",
                "updates": [
                    {"side": "bid", "price_level": "77259.9", "new_quantity": "0.71361683"},
                    {"side": "offer", "price_level": "77260.5", "new_quantity": "0.42380834"}
                ]
            }]
        }"#,
    );
    let out = decode(&raw).unwrap();
    assert_eq!(out.len(), 1);
    match &out[0].0 {
        Kind::Snapshot {
            symbol, bids, asks, ..
        } => {
            assert_eq!(symbol, "BTC-USD");
            assert_eq!(bids, &vec![[F(77259.9), F(0.71361683)]]);
            assert_eq!(asks, &vec![[F(77260.5), F(0.42380834)]]);
        }
        other => panic!("expected Snapshot, got {other:?}"),
    }
}

#[test]
fn l2_update_maps_bid_to_bids_and_offer_to_asks() {
    let raw = json(
        r#"{
            "channel": "l2_data",
            "sequence_num": 1,
            "events": [{
                "type": "update",
                "product_id": "ETH-USD",
                "updates": [
                    {"side": "bid", "price_level": "2518.79", "new_quantity": "0.8437"},
                    {"side": "offer", "price_level": "2522.36", "new_quantity": "0.42380834"}
                ]
            }]
        }"#,
    );
    let out = decode(&raw).unwrap();
    assert_eq!(out.len(), 1);
    match &out[0].0 {
        Kind::Depth {
            symbol, bids, asks, ..
        } => {
            assert_eq!(symbol, "ETH-USD");
            assert_eq!(bids, &vec![[F(2518.79), F(0.8437)]]);
            assert_eq!(asks, &vec![[F(2522.36), F(0.42380834)]]);
        }
        other => panic!("expected Depth, got {other:?}"),
    }
}

#[test]
fn market_trades_update_maps_side_to_buyer_maker() {
    let raw = json(
        r#"{
            "channel": "market_trades",
            "sequence_num": 27,
            "events": [{
                "type": "update",
                "trades": [
                    {"product_id": "BTC-USD", "trade_id": "1092094324", "price": "77257.26", "size": "0.00001281", "side": "SELL"},
                    {"product_id": "BTC-USD", "trade_id": "1092094325", "price": "77257.30", "size": "0.005", "side": "BUY"}
                ]
            }]
        }"#,
    );
    let out = decode(&raw).unwrap();
    assert_eq!(out.len(), 2);
    match &out[0].0 {
        Kind::Trade {
            symbol,
            id,
            price,
            qty,
            buyer_maker,
        } => {
            assert_eq!(symbol, "BTC-USD");
            assert_eq!(*id, 1092094324);
            assert_eq!(*price, F(77257.26));
            assert_eq!(*qty, F(0.00001281));
            assert!(!*buyer_maker);
        }
        other => panic!("expected Trade, got {other:?}"),
    }
    match &out[1].0 {
        Kind::Trade { buyer_maker, .. } => assert!(*buyer_maker),
        other => panic!("expected Trade, got {other:?}"),
    }
}

#[test]
fn trade_snapshots_heartbeats_and_subscriptions_produce_no_events() {
    let trade_snapshot = json(
        r#"{
            "channel": "market_trades",
            "sequence_num": 12,
            "events": [{
                "type": "snapshot",
                "trades": [
                    {"product_id": "BTC-USD", "trade_id": "1092094323", "price": "77257.25", "size": "0.00000212", "side": "BUY"}
                ]
            }]
        }"#,
    );
    let heartbeat = json(
        r#"{
            "channel": "heartbeats",
            "sequence_num": 36,
            "events": [{"current_time": "2026-09-13 02:12:36 UTC", "heartbeat_counter": 213038}]
        }"#,
    );
    let subscriptions = json(
        r#"{
            "channel": "subscriptions",
            "sequence_num": 10,
            "events": [{"subscriptions": {"level2": ["BTC-USD", "ETH-USD"]}}]
        }"#,
    );
    for raw in [&trade_snapshot, &heartbeat, &subscriptions] {
        assert!(
            decode(raw).unwrap().is_empty(),
            "unexpected events for {raw:?}"
        );
    }
}

#[test]
fn message_timestamp_becomes_exchange_ns() {
    let raw = json(
        r#"{
            "channel": "l2_data",
            "timestamp": "2026-09-13T02:12:35.904376Z",
            "sequence_num": 1,
            "events": [{
                "type": "update",
                "product_id": "ETH-USD",
                "updates": [{"side": "bid", "price_level": "2518.79", "new_quantity": "0.8437"}]
            }]
        }"#,
    );
    let out = decode(&raw).unwrap();
    assert_eq!(out.len(), 1);
    assert_eq!(out[0].1, Some(1789265555904376000));
}

fn l2(kind: &str, product: &str, seq: u64) -> Json {
    json(&format!(
        r#"{{"channel":"l2_data","sequence_num":{seq},"events":[{{"type":"{kind}","product_id":"{product}","updates":[]}}]}}"#
    ))
}

fn ids(kind: &Kind<F>) -> (u64, u64, u64) {
    match kind {
        Kind::Depth {
            first_id,
            last_id,
            prev_id,
            ..
        } => (*first_id, *last_id, *prev_id),
        other => panic!("expected Depth, got {other:?}"),
    }
}

#[test]
fn updates_are_chained_per_product() {
    let mut d = Decoder::default();
    d.decode::<F>(&l2("snapshot", "BTC-USD", 3)).unwrap();
    d.decode::<F>(&l2("snapshot", "ETH-USD", 4)).unwrap();
    let btc = d.decode::<F>(&l2("update", "BTC-USD", 5)).unwrap();
    assert_eq!(ids(&btc[0].0), (3, 5, 3));
    let eth = d.decode::<F>(&l2("update", "ETH-USD", 6)).unwrap();
    assert_eq!(ids(&eth[0].0), (4, 6, 4));
    let btc = d.decode::<F>(&l2("update", "BTC-USD", 9)).unwrap();
    assert_eq!(ids(&btc[0].0), (5, 9, 5));
    let new = d.decode::<F>(&l2("update", "SOL-USD", 10)).unwrap();
    assert_eq!(ids(&new[0].0), (0, 10, 0));
}

#[test]
fn a_refused_message_keeps_what_was_decoded_before_the_refusal() {
    let mut d = Decoder::default();
    let raw = json(
        r#"{"channel":"l2_data","sequence_num":7,"events":[
            {"type":"update","product_id":"BTC-USD","updates":[]},
            {"type":"update","product_id":"ETH-USD"}
        ]}"#,
    );
    assert_eq!(d.decode::<F>(&raw).unwrap_err(), Error::MissingUpdates);
    let btc = d.decode::<F>(&l2("update", "BTC-USD", 8)).unwrap();
    assert_eq!(ids(&btc[0].0), (7, 8, 7));
    let eth = d.decode::<F>(&l2("update", "ETH-USD", 9)).unwrap();
    assert_eq!(ids(&eth[0].0), (0, 9, 0));
}

#[test]
fn coinbase_refusals() {
    let cases = [
        (r#"{}"#, Error::MissingChannel),
        (
            r#"{"channel":"heartbeats","timestamp":"yesterday"}"#,
            Error::InvalidTimestamp,
        ),
        (r#"{"channel":"l2_data"}"#, Error::MissingSequence),
        (
            r#"{"channel":"l2_data","sequence_num":1}"#,
            Error::MissingEvents,
        ),
        (r#"{"channel":"market_trades"}"#, Error::MissingEvents),
        (
            r#"{"channel":"l2_data","sequence_num":1,"events":[{}]}"#,
            Error::MissingProduct,
        ),
        (
            r#"{"channel":"l2_data","sequence_num":1,"events":[{"product_id":"A"}]}"#,
            Error::MissingUpdates,
        ),
        (
            r#"{"channel":"l2_data","sequence_num":1,"events":[{"product_id":"A","updates":[{"side":"bid"}]}]}"#,
            Error::MissingNumber,
        ),
        (
            r#"{"channel":"l2_data","sequence_num":1,"events":[{"product_id":"A","updates":[{"side":"offer","price_level":"1","new_quantity":"x"}]}]}"#,
            Error::InvalidNumber,
        ),
        (
            r#"{"channel":"market_trades","events":[{"type":"update"}]}"#,
            Error::MissingTrades,
        ),
        (
            r#"{"channel":"market_trades","events":[{"type":"update","trades":[{}]}]}"#,
            Error::MissingProduct,
        ),
        (
            r#"{"channel":"market_trades","events":[{"type":"update","trades":[{"product_id":"A","trade_id":3}]}]}"#,
            Error::MissingId,
        ),
        (
            r#"{"channel":"market_trades","events":[{"type":"update","trades":[{"product_id":"A","trade_id":"-3"}]}]}"#,
            Error::InvalidId,
        ),
        (
            r#"{"channel":"market_trades","events":[{"type":"update","trades":[{"product_id":"A","trade_id":"3","price":"1"}]}]}"#,
            Error::MissingNumber,
        ),
    ];
    for (text, fault) in cases {
        assert_eq!(decode(&json(text)).unwrap_err(), fault, "{text}");
    }
}

#[test]
fn a_message_can_be_decoded_with_its_time_given() {
    let raw = l2("snapshot", "BTC-USD", 2);
    let out = Decoder::default()
        .receive::<F>(&raw, "l2_data", Some(77))
        .unwrap();
    assert_eq!(out[0].1, Some(77));
    assert_eq!(coinbase::clock(5), 5);
    assert_eq!(coinbase::clock(-1), u64::MAX);
    assert_eq!(coinbase::clock(1 << 64), 0);
}

#[test]
fn a_product_gives_the_rules_of_its_instrument() {
    let online = json(
        r#"{"status":"online","quote_increment":"0.01","base_increment":"0.00000001","base_min_size":"0.00000002","quote_min_size":"1"}"#,
    );
    match coinbase::metadata::<F>(&online, &"BTC-USD".to_string()).unwrap() {
        Kind::Metadata {
            symbol,
            tick,
            step,
            min_qty,
            min_notional,
        } => {
            assert_eq!(symbol, "BTC-USD");
            assert_eq!(tick, F(0.01));
            assert_eq!(step, F(0.00000001));
            assert_eq!(min_qty, F(0.00000002));
            assert_eq!(min_notional, F(1.0));
        }
        other => panic!("expected Metadata, got {other:?}"),
    }
    let offline = json(r#"{"status":"delisted"}"#);
    assert_eq!(
        coinbase::metadata::<F>(&offline, &"BTC-USD".to_string()).unwrap_err(),
        Error::InstrumentOffline
    );
}

#[test]
fn subscriptions_and_addresses() {
    let c = coinbase_config();
    assert_eq!(
        coinbase::subscription("level2", &c.symbols),
        r#"{"type":"subscribe","product_ids":["BTC-USD","ETH-USD"],"channel":"level2"}"#
    );
    assert_eq!(
        coinbase::product_url(&c, &c.symbols[1]),
        "https://rest.example/api/v3/brokerage/market/products/ETH-USD"
    );
    let b = config();
    assert_eq!(
        recorder::depth_url(&b),
        "wss://public.example/stream?streams=btcusdt@depth@100ms/ethusdt@depth@100ms"
    );
    assert_eq!(
        recorder::market_url(&b),
        "wss://market.example/stream?streams=btcusdt@aggTrade/btcusdt@markPrice@1s/ethusdt@aggTrade/ethusdt@markPrice@1s"
    );
    assert_eq!(
        recorder::snapshot_url(&b, &b.symbols[0]),
        "https://rest.example/fapi/v1/depth?symbol=BTCUSDT&limit=1000"
    );
}

#[test]
fn binance_messages_are_decoded() {
    let depth = json(
        r#"{"stream":"x","data":{"e":"depthUpdate","s":"BTCUSDT","E":1500,"U":5,"u":7,"pu":4,"b":[["99.9","1"]],"a":[[100.1,2],["100.2","0"]]}}"#,
    );
    match recorder::decode::<F>(&depth).unwrap().unwrap() {
        (
            Kind::Depth {
                symbol,
                first_id,
                last_id,
                prev_id,
                bids,
                asks,
            },
            t,
        ) => {
            assert_eq!(symbol, "BTCUSDT");
            assert_eq!((first_id, last_id, prev_id), (5, 7, 4));
            assert_eq!(bids, vec![[F(99.9), F(1.0)]]);
            assert_eq!(asks, vec![[F(100.1), F(2.0)], [F(100.2), F(0.0)]]);
            assert_eq!(t, Some(1500 * MS));
        }
        other => panic!("expected Depth, got {other:?}"),
    }
    let trade = json(r#"{"e":"aggTrade","s":"ETHUSDT","a":9,"p":"3000.5","q":"0.25","m":true,"st":1}"#);
    match recorder::decode::<F>(&trade).unwrap().unwrap() {
        (
            Kind::Trade {
                id,
                price,
                qty,
                buyer_maker,
                ..
            },
            t,
        ) => {
            assert_eq!(id, 9);
            assert_eq!(price, F(3000.5));
            assert_eq!(qty, F(0.25));
            assert!(buyer_maker);
            assert_eq!(t, None);
        }
        other => panic!("expected Trade, got {other:?}"),
    }
    let mark = json(r#"{"e":"markPriceUpdate","s":"ETHUSDT","p":"3001","r":"-0.0001","T":28800000}"#);
    match recorder::decode::<F>(&mark).unwrap().unwrap().0 {
        Kind::Mark {
            price,
            rate,
            next_funding_ns,
            ..
        } => {
            assert_eq!(price, F(3001.0));
            assert_eq!(rate, F(-0.0001));
            assert_eq!(next_funding_ns, 28800 * SECOND);
        }
        other => panic!("expected Mark, got {other:?}"),
    }
    assert!(recorder::decode::<F>(&json(r#"{"result":null,"id":1}"#))
        .unwrap()
        .is_none());
}

#[test]
fn binance_refusals() {
    let cases = [
        (r#"{"e":"aggTrade"}"#, Error::MissingSymbol),
        (r#"{"s":"A","st":2,"e":"aggTrade"}"#, Error::UnexpectedInstrument),
        (r#"{"s":"A"}"#, Error::MissingEventType),
        (r#"{"s":"A","e":"kline"}"#, Error::UnknownStreamEvent),
        (r#"{"s":"A","e":"depthUpdate"}"#, Error::MissingInteger),
        (
            r#"{"s":"A","e":"depthUpdate","U":1,"u":1,"pu":1}"#,
            Error::MissingLevels,
        ),
        (
            r#"{"s":"A","e":"depthUpdate","U":1,"u":1,"pu":1,"b":[["1"]],"a":[]}"#,
            Error::MissingNumber,
        ),
        (
            r#"{"s":"A","e":"depthUpdate","U":1,"u":1,"pu":1,"b":[["1","y"]],"a":[]}"#,
            Error::InvalidNumber,
        ),
        (
            r#"{"s":"A","e":"depthUpdate","U":1,"u":1,"pu":1,"b":[["inf","1"]],"a":[]}"#,
            Error::NonfiniteNumber,
        ),
        (
            r#"{"s":"A","e":"aggTrade","p":"0","q":"1"}"#,
            Error::InvalidTrade,
        ),
        (
            r#"{"s":"A","e":"aggTrade","p":"1","q":"1","a":1}"#,
            Error::MissingMakerFlag,
        ),
        (
            r#"{"s":"A","e":"markPriceUpdate","p":"1","r":"0","T":18446744073709551615}"#,
            Error::TimeOutOfRange,
        ),
    ];
    for (text, fault) in cases {
        assert_eq!(recorder::decode::<F>(&json(text)).unwrap_err(), fault, "{text}");
    }
}

fn row(symbol: &str, status: &str, filters: &str) -> String {
    format!(
        r#"{{"symbol":"{symbol}","status":"{status}","contractType":"PERPETUAL","filters":{filters}}}"#
    )
}

const FILTERS: &str = r#"[
    {"filterType":"PRICE_FILTER","tickSize":"0.10"},
    {"filterType":"MARKET_LOT_SIZE","stepSize":"0.001","minQty":"0.002"},
    {"filterType":"MIN_NOTIONAL","notional":"5"}
]"#;

#[test]
fn instruments_are_found_with_their_rows() {
    let list = json(&format!(
        r#"{{"symbols":[{},{},{}]}}"#,
        row("XRPUSDT", "TRADING", "[]"),
        row("ETHUSDT", "TRADING", FILTERS),
        row("BTCUSDT", "TRADING", FILTERS),
    ));
    let found = recorder::metadata::<F>(&list, &config().symbols).unwrap();
    assert_eq!(found.len(), 2);
    assert_eq!((found[0].1, found[1].1), (2, 1));
    match &found[0].0 {
        Kind::Metadata {
            symbol,
            tick,
            step,
            min_qty,
            min_notional,
        } => {
            assert_eq!(symbol, "BTCUSDT");
            assert_eq!(*tick, F(0.1));
            assert_eq!(*step, F(0.001));
            assert_eq!(*min_qty, F(0.002));
            assert_eq!(*min_notional, F(5.0));
        }
        other => panic!("expected Metadata, got {other:?}"),
    }
}

#[test]
fn instrument_refusals() {
    let btc = |status: &str, filters: &str| {
        json(&format!(
            r#"{{"symbols":[{}]}}"#,
            row("BTCUSDT", status, filters)
        ))
    };
    let cases = [
        (json("{}"), Error::MissingSymbols),
        (json(r#"{"symbols":[]}"#), Error::InstrumentUnavailable),
        (btc("BREAK", FILTERS), Error::InstrumentInactive),
        (btc("TRADING", "7"), Error::MissingFilters),
        (btc("TRADING", "[]"), Error::MissingFilter),
    ];
    for (list, fault) in cases {
        assert_eq!(
            recorder::metadata::<F>(&list, &config().symbols).unwrap_err(),
            fault
        );
    }
}

#[test]
fn funding_pages_keep_what_comes_before_a_refusal() {
    let symbol = "BTCUSDT".to_string();
    let page = recorder::funding_page::<F>(
        &json(
            r#"[{"fundingTime":2000,"fundingRate":"0.001","markPrice":"100"},
                {"fundingTime":1000,"fundingRate":"0.002","markPrice":"101"},
                {"fundingTime":3000,"fundingRate":"0.003"}]"#,
        ),
        &symbol,
        5,
    );
    assert_eq!(page.kinds.len(), 2);
    assert_eq!(page.next_ms, 2001);
    assert_eq!(page.more, Err(Error::MissingNumber));
    match &page.kinds[1] {
        Kind::Funding {
            funding_ns,
            rate,
            mark,
            ..
        } => {
            assert_eq!(*funding_ns, SECOND);
            assert_eq!(*rate, F(0.002));
            assert_eq!(*mark, F(101.0));
        }
        other => panic!("expected Funding, got {other:?}"),
    }
    let empty = recorder::funding_page::<F>(&json("[]"), &symbol, 5);
    assert_eq!(empty.next_ms, 5);
    assert_eq!(empty.more, Ok(false));
    let wrong = recorder::funding_page::<F>(&json("{}"), &symbol, 5);
    assert_eq!(wrong.more, Err(Error::FundingNotArray));
    let rows = vec![r#"{"fundingTime":7,"fundingRate":"0","markPrice":"1"}"#; 1000];
    let full = recorder::funding_page::<F>(&json(&format!("[{}]", rows.join(","))), &symbol, 5);
    assert_eq!(full.more, Ok(true));
    assert_eq!(full.next_ms, 8);
}

#[test]
fn documents_are_parsed() {
    assert_eq!(read_json("{").unwrap_err(), Error::MalformedText);
    let j = json(r#"{"a":[1,-2,1.5],"b":null,"c":true,"d":"x"}"#);
    assert!(matches!(j.get("b"), Some(Json::Null)));
    assert!(j.get("e").is_none());
    assert_eq!(j.get_flag("c"), Some(true));
    assert_eq!(j.get_text("d"), Some(&"x".to_string()));
    let items = j.get_items("a").unwrap();
    assert!(matches!(items[0], Json::Unsigned(1)));
    assert!(matches!(&items[1], Json::Number(s) if s == "-2"));
    assert!(matches!(&items[2], Json::Number(s) if s == "1.5"));
    assert!(j.get("a").unwrap().item(3).is_none());
}

fn depth_text(last: u64, prev: u64) -> String {
    format!(
        r#"{{"e":"depthUpdate","s":"BTCUSDT","U":{last},"u":{last},"pu":{prev},"b":[["99.9","1"]],"a":[["100.1","1"]]}}"#
    )
}

fn push(engine: &mut Engine<F>, session: &mut Session, input: Input<F>, t: u64) -> Vec<[Option<u64>; 2]> {
    let mut out = Vec::new();
    for x in session.take_in(input).unwrap() {
        let e = stamp(x, &"s".to_string(), engine.last_seq, t, t);
        engine.on_event(&e).unwrap();
        out.push(session.follow_up(&e.kind, engine));
    }
    out
}

fn rules() -> Kind<F> {
    Kind::Metadata {
        symbol: "BTCUSDT".into(),
        tick: F(0.1),
        step: F(0.001),
        min_qty: F(0.001),
        min_notional: F(5.0),
    }
}

#[test]
fn a_session_asks_for_a_book_once_and_ignores_stale_replies() {
    let c = config();
    let mut engine = Engine::new(c.clone(), vec![]).unwrap();
    let mut session = Session::new(&c);
    assert_eq!(
        push(&mut engine, &mut session, Input::Ready(rules(), None), 1),
        vec![[None, None]]
    );
    assert_eq!(
        push(&mut engine, &mut session, Input::Raw(depth_text(11, 10)), 2),
        vec![[Some(1), None]]
    );
    assert_eq!(
        push(&mut engine, &mut session, Input::Raw(depth_text(12, 11)), 3),
        vec![[None, None]]
    );
    let reply = r#"{"lastUpdateId":11,"bids":[["99.8","1"]],"asks":[["100.2","1"]]}"#;
    assert!(
        push(&mut engine, &mut session, Input::Snapshot(0, 0, reply.into()), 4).is_empty()
    );
    assert!(!engine.books[0].synced);
    assert_eq!(
        push(&mut engine, &mut session, Input::Snapshot(0, 1, reply.into()), 5),
        vec![[None, None]]
    );
    assert!(engine.books[0].synced);
    assert_eq!(engine.books[0].last_id, Some(12));
}

#[test]
fn a_loss_makes_requests_stale_and_a_failed_request_is_tried_again() {
    let c = config();
    let mut engine = Engine::new(c.clone(), vec![]).unwrap();
    let mut session = Session::new(&c);
    push(&mut engine, &mut session, Input::Ready(rules(), None), 1);
    push(&mut engine, &mut session, Input::Raw(depth_text(11, 10)), 2);
    push(&mut engine, &mut session, Input::Disconnect("lost".into()), 3);
    let reply = r#"{"lastUpdateId":11,"bids":[],"asks":[]}"#;
    assert!(
        push(&mut engine, &mut session, Input::Snapshot(0, 1, reply.into()), 4).is_empty()
    );
    let asked = push(&mut engine, &mut session, Input::Raw(depth_text(12, 11)), 5);
    assert_eq!(asked, vec![[Some(3), None]]);
    push(&mut engine, &mut session, Input::SnapshotError(0, "timeout".into()), 6);
    let asked = push(&mut engine, &mut session, Input::Raw(depth_text(13, 12)), 7);
    assert_eq!(asked, vec![[Some(5), None]]);
    assert!(matches!(
        session.take_in::<F>(Input::Raw("{".into())),
        Err(Error::MalformedText)
    ));
    assert!(matches!(
        session.take_in::<F>(Input::Snapshot(0, 5, "{}".into())),
        Err(Error::MissingInteger)
    ));
}

#[test]
fn a_coinbase_session_asks_for_nothing_and_splits_messages() {
    let c = coinbase_config();
    let mut session = Session::new(&c);
    let engine: Engine<F> = Engine::new(c, vec![]).unwrap();
    let text = r#"{"channel":"l2_data","sequence_num":4,"events":[
        {"type":"snapshot","product_id":"BTC-USD","updates":[]},
        {"type":"snapshot","product_id":"ETH-USD","updates":[]}]}"#;
    let out: Vec<Incoming<F>> = session.take_in(Input::Raw(text.into())).unwrap();
    assert_eq!(out.len(), 2);
    assert_eq!(out[1].raw.as_deref(), Some(text));
    assert_eq!(out[1].kind.symbol(), Some("ETH-USD"));
    assert_eq!(session.follow_up(&out[0].kind, &engine), [None, None]);
    let v = json(text);
    let heard: Vec<Incoming<F>> = session.hear(&v, &text.to_string()).unwrap();
    assert_eq!(heard.len(), 2);
}

#[test]
fn stamped_events_follow_on_the_last() {
    let x = Incoming {
        kind: Kind::<F>::Timer,
        raw: Some("{}".into()),
        exchange_ns: Some(4),
    };
    let e: Event<F> = stamp(x, &"run".to_string(), 41, 7, 8);
    assert_eq!((e.version, e.seq, e.recv_ns, e.utc_ns), (1, 42, 7, 8));
    assert_eq!(e.session, "run");
    assert_eq!(e.raw.as_deref(), Some("{}"));
    assert_eq!(e.exchange_ns, Some(4));
    assert_eq!(anchor(10, 3), 10);
    assert_eq!(anchor(10, 10), 11);
    assert_eq!(anchor(10, 20), 21);
}

#[test]
fn timing_rules_of_a_session() {
    assert!(is_timely(500_000_000, 500));
    assert!(!is_timely(500_000_001, 500));
    assert!(!checkpoint_due(SECOND - 1, 0));
    assert!(checkpoint_due(SECOND, 0));
    assert!(!checkpoint_due(5, u64::MAX));
    assert!(!is_over(u128::MAX, None));
    assert!(is_over(2_000_000_000, Some(2)));
    assert!(!is_over(1_999_999_999, Some(2)));
    let mut engine: Engine<F> = Engine::new(config(), vec![]).unwrap();
    assert_eq!(funding_start(&engine, 9 * MS), 9);
    engine.broker.position_history[1] = vec![(7 * MS, F(1.0)), (8 * MS, F(0.0))];
    assert_eq!(funding_start(&engine, 9 * MS), 7);
    engine.broker.position_history[0] = vec![(6 * MS, F(1.0))];
    assert_eq!(funding_start(&engine, 9 * MS), 6);
}

#[test]
fn a_link_backs_off_and_notices_gaps() {
    let mut link = Link::new();
    let waits: Vec<u64> = (0..7).map(|_| link.lost()).collect();
    assert_eq!(waits, vec![1, 2, 4, 8, 16, 30, 30]);
    link.connected();
    assert_eq!(link.lost(), 1);
    link.connected();
    assert_eq!(link.receive(Frame::Text, Some(0)), Ok(Reply::Forward));
    assert_eq!(link.receive(Frame::Text, Some(1)), Ok(Reply::Forward));
    assert_eq!(link.receive(Frame::Text, None), Ok(Reply::Forward));
    assert_eq!(link.receive(Frame::Ping, None), Ok(Reply::Pong));
    assert_eq!(link.receive(Frame::Other, None), Ok(Reply::Ignore));
    assert_eq!(link.receive(Frame::Text, Some(3)), Err(Error::SequenceGap));
    assert_eq!(link.receive(Frame::Close, None), Err(Error::RemoteClose));
    link.connected();
    assert_eq!(link.receive(Frame::Text, Some(9)), Ok(Reply::Forward));
}

#[test]
fn the_clock_reads_a_time_behind_2023() {
    assert!(recorder::utc_ns().unwrap() > 1_700_000_000_000_000_000);
    assert_eq!(recorder::low_ns((1u128 << 64) + 5), 5);
    assert_eq!(recorder::clock_reading(Some((1u128 << 64) + 7)), Some(7));
    assert_eq!(recorder::clock_reading(None), None);
    assert_eq!(recorder::from_millis(3), Ok(3_000_000));
    assert_eq!(recorder::from_millis(u64::MAX), Err(Error::TimeOutOfRange));
}

#[test]
fn an_update_names_its_predecessor_whatever_came_between() {
    let mut d = Decoder::default();
    let mut out = |raw: &Json| d.decode::<F>(raw).unwrap();
    let both = json(
        r#"{"channel":"l2_data","sequence_num":9,"events":[
            {"type":"update","product_id":"ETH-USD","updates":[]},
            {"type":"update","product_id":"BTC-USD","updates":[]},
            {"type":"update","product_id":"BTC-USD","updates":[]}]}"#,
    );
    assert_eq!(ids(&out(&l2("update", "BTC-USD", 3))[0].0), (0, 3, 0));
    out(&l2("snapshot", "BTC-USD", 4));
    out(&l2("snapshot", "ETH-USD", 5));
    assert!(out(&json(r#"{"channel":"heartbeats","sequence_num":6,"events":[]}"#)).is_empty());
    assert!(out(&json(r#"{"channel":"market_trades","sequence_num":7,"events":[]}"#)).is_empty());
    assert_eq!(ids(&out(&l2("update", "ETH-USD", 8))[0].0), (5, 8, 5));
    let list = out(&both);
    assert_eq!(list.len(), 3);
    assert_eq!(ids(&list[0].0), (8, 9, 8));
    assert_eq!(ids(&list[1].0), (4, 9, 4));
    assert_eq!(ids(&list[2].0), (9, 9, 9));
}

#[test]
fn a_recording_reads_two_streams() {
    let b = config();
    let (books, trades) = feeds::sources(&b);
    assert_eq!((books.url, books.feed), (recorder::depth_url(&b), "public".to_string()));
    assert_eq!((trades.url, trades.feed), (recorder::market_url(&b), "market".to_string()));
    assert!(books.requests.is_empty() && trades.requests.is_empty());
    assert!(!books.numbered && !trades.numbered);
    let c = coinbase_config();
    let (books, trades) = feeds::sources(&c);
    let beats = coinbase::subscription("heartbeats", &c.symbols);
    assert_eq!((books.url, books.feed), (c.public_ws.clone(), "public".to_string()));
    assert_eq!(
        books.requests,
        vec![coinbase::subscription("level2", &c.symbols), beats.clone()]
    );
    assert_eq!((trades.url, trades.feed), (c.market_ws.clone(), "market".to_string()));
    assert_eq!(
        trades.requests,
        vec![coinbase::subscription("market_trades", &c.symbols), beats]
    );
    assert!(books.numbered && trades.numbered);
    assert_eq!(feeds::rules_url(&b), "https://rest.example/fapi/v1/exchangeInfo");
    assert_eq!(feeds::funding_url(&b), "https://rest.example/fapi/v1/fundingRate");
}

#[test]
fn numbers_are_read_where_a_stream_has_them() {
    assert_eq!(feeds::message_number(true, r#"{"sequence_num":7}"#), Ok(Some(7)));
    assert_eq!(feeds::message_number(true, "{}"), Ok(None));
    assert_eq!(feeds::message_number(true, "{"), Err(Error::MalformedText));
    assert_eq!(feeds::message_number(false, r#"{"sequence_num":7}"#), Ok(None));
    assert_eq!(feeds::message_number(false, "{"), Ok(None));
}

#[test]
fn polls_ask_for_settlements_and_now_and_then_for_rules() {
    assert!(feeds::settles(Venue::BinanceUsdm));
    assert!(!feeds::settles(Venue::CoinbaseSpot));
    let due: Vec<u64> = (1..=61).filter(|n| feeds::refreshes(*n)).collect();
    assert_eq!(due, vec![30, 60]);
}
