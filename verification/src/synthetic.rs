//! Synthetic markets and what a benchmark needs.
use crate::book::BookView;
use crate::config::Config;
use crate::engine::{Engine, EngineView};
use crate::error::Error;
use crate::features::{feature_names, names};
use crate::model::Model;
use crate::number::{quotient, ratio, whole, zero, Real};
use crate::recorder::low_ns;
use crate::text::texts;
use crate::types::{event_views, Event, EventView, Kind, KindView, MS, SCHEMA, SECOND};
use vstd::prelude::*;

verus! {

/// When a synthetic market opens.
pub const OPENING_NS: u64 = 1_700_000_000_000_000_000;

/// How long a frame of a synthetic market lasts.
pub const FRAME_NS: u64 = 100_000_000;

/// The longest synthetic log.
pub const LONGEST_FIXTURE_S: u64 = 86_400;

/// Checks the length of a synthetic log.
pub fn check_fixture(seconds: u64) -> (r: Result<(), Error>)
    ensures
        r == if seconds <= LONGEST_FIXTURE_S {
            Ok::<(), Error>(())
        } else {
            Err::<(), Error>(Error::FixtureTooLong)
        },
{
    if seconds <= LONGEST_FIXTURE_S {
        Ok(())
    } else {
        Err(Error::FixtureTooLong)
    }
}

/// The price around which an asset moves.
pub open spec fn center_of<R: Real>(i: int) -> R {
    whole::<R>(
        if i == 0 {
            60_000
        } else {
            3_000
        },
    )
}

/// The price around which an asset moves.
pub fn center<R: Real>(i: usize) -> (r: R)
    ensures
        r == center_of::<R>(i as int),
{
    if i == 0 {
        R::from_i64(60_000)
    } else {
        R::from_i64(3_000)
    }
}

/// The tick of the synthetic instruments.
pub open spec fn tick_of<R: Real>() -> R {
    ratio::<R>(1, 10)
}

/// An event of a synthetic log.
pub open spec fn synthetic<R>(kind: KindView<R>, seq: u64, t: u64) -> EventView<R> {
    EventView {
        version: SCHEMA,
        session: "synthetic-v1"@,
        seq,
        recv_ns: t,
        utc_ns: t,
        exchange_ns: Some(t),
        raw: None,
        kind,
    }
}

fn event<R: Real>(kind: Kind<R>, seq: u64, t: u64) -> (r: Event<R>)
    ensures
        r@ == synthetic(kind@, seq, t),
{
    Event {
        version: SCHEMA,
        session: "synthetic-v1".to_owned(),
        seq,
        recv_ns: t,
        utc_ns: t,
        exchange_ns: Some(t),
        raw: None,
        kind,
    }
}

/// The rules of a synthetic instrument.
pub open spec fn rules_of<R: Real>(symbol: Seq<char>) -> KindView<R> {
    KindView::Metadata {
        symbol,
        tick: tick_of::<R>(),
        step: ratio::<R>(1, 1_000),
        min_qty: ratio::<R>(1, 1_000),
        min_notional: whole::<R>(5),
    }
}

/// The book with which a synthetic instrument opens.
pub open spec fn first_book_of<R: Real>(symbol: Seq<char>, i: int) -> KindView<R> {
    let p = center_of::<R>(i);
    KindView::Snapshot {
        symbol,
        last_id: 1,
        bids: seq![[p.spec_minus(tick_of::<R>()), whole::<R>(2)]],
        asks: seq![[p.spec_plus(tick_of::<R>()), whole::<R>(2)]],
    }
}

fn rules<R: Real>(symbol: &String) -> (r: Kind<R>)
    ensures
        r@ == rules_of::<R>(symbol@),
{
    Kind::Metadata {
        symbol: symbol.clone(),
        tick: quotient(1, 10),
        step: quotient(1, 1_000),
        min_qty: quotient(1, 1_000),
        min_notional: R::from_i64(5),
    }
}

fn first_book<R: Real>(symbol: &String, i: usize) -> (r: Kind<R>)
    ensures
        r@ == first_book_of::<R>(symbol@, i as int),
{
    let p: R = center(i);
    let tick: R = quotient(1, 10);
    let size = R::from_i64(2);
    let mut bids: Vec<[R; 2]> = Vec::new();
    bids.push([p.minus(tick), size]);
    let mut asks: Vec<[R; 2]> = Vec::new();
    asks.push([p.plus(tick), size]);
    let r = Kind::Snapshot { symbol: symbol.clone(), last_id: 1, bids, asks };
    assert(r@ =~= first_book_of::<R>(symbol@, i as int));
    r
}

/// The events with which a synthetic market of two instruments opens.
pub open spec fn opening_of<R: Real>(symbols: Seq<Seq<char>>) -> Seq<EventView<R>> {
    seq![
        synthetic(KindView::Connection { source: "public"@, connected: true }, 1, OPENING_NS),
        synthetic(KindView::Connection { source: "market"@, connected: true }, 2, OPENING_NS),
        synthetic(rules_of::<R>(symbols[0]), 3, OPENING_NS),
        synthetic(first_book_of::<R>(symbols[0], 0), 4, OPENING_NS),
        synthetic(rules_of::<R>(symbols[1]), 5, OPENING_NS),
        synthetic(first_book_of::<R>(symbols[1], 1), 6, OPENING_NS),
    ]
}

/// The events with which a synthetic market of two instruments opens.
pub fn opening<R: Real>(symbols: &Vec<String>) -> (r: Vec<Event<R>>)
    requires
        symbols@.len() == 2,
    ensures
        event_views(r@) == opening_of::<R>(texts(symbols@)),
{
    let mut out: Vec<Event<R>> = Vec::new();
    let public = Kind::Connection { source: "public".to_owned(), connected: true };
    let market = Kind::Connection { source: "market".to_owned(), connected: true };
    out.push(event(public, 1, OPENING_NS));
    out.push(event(market, 2, OPENING_NS));
    out.push(event(rules(&symbols[0]), 3, OPENING_NS));
    out.push(event(first_book(&symbols[0], 0), 4, OPENING_NS));
    out.push(event(rules(&symbols[1]), 5, OPENING_NS));
    out.push(event(first_book(&symbols[1], 1), 6, OPENING_NS));
    assert(event_views(out@) =~= opening_of::<R>(texts(symbols@)));
    out
}

/// The price of an asset in a frame: its center and a wave, to the tick.
pub open spec fn price_of<R: Real>(i: int, wave: R) -> R {
    center_of::<R>(i).spec_plus(wave).spec_times(whole::<R>(10)).spec_rounded().spec_over(
        whole::<R>(10),
    )
}

/// The `k`th price below one, or above it.
pub open spec fn rung_of<R: Real>(price: R, k: int, up: bool) -> R {
    let away = whole::<R>(k as i64).spec_times(tick_of::<R>());
    if up {
        price.spec_plus(away)
    } else {
        price.spec_minus(away)
    }
}

/// The levels of a side in a frame: ten around the last price go, ten around the new one come.
pub open spec fn rungs_of<R: Real>(last: R, price: R, size: R, up: bool) -> Seq<[R; 2]> {
    Seq::new(
        20,
        |j: int|
            if j < 10 {
                [rung_of(last, j + 1, up), zero::<R>()]
            } else {
                [rung_of(price, j - 9, up), size]
            },
    )
}

fn rung<R: Real>(price: R, k: i64, up: bool) -> (r: R)
    ensures
        r == rung_of(price, k as int, up),
{
    let away = R::from_i64(k).times(quotient(1, 10));
    if up {
        price.plus(away)
    } else {
        price.minus(away)
    }
}

fn rungs<R: Real>(last: R, price: R, size: R, up: bool) -> (r: Vec<[R; 2]>)
    ensures
        r@ == rungs_of(last, price, size, up),
{
    let mut out: Vec<[R; 2]> = Vec::new();
    let mut k: i64 = 1;
    while k <= 10
        invariant
            1 <= k <= 11,
            out@ == rungs_of(last, price, size, up).take(k - 1),
        decreases 11 - k,
    {
        out.push([rung(last, k, up), R::from_i64(0)]);
        assert(out@ =~= rungs_of(last, price, size, up).take(k as int));
        k = k + 1;
    }
    k = 1;
    while k <= 10
        invariant
            1 <= k <= 11,
            out@ == rungs_of(last, price, size, up).take(k + 9),
        decreases 11 - k,
    {
        out.push([rung(price, k, up), size]);
        assert(out@ =~= rungs_of(last, price, size, up).take(k + 10));
        k = k + 1;
    }
    assert(rungs_of(last, price, size, up).take(20) =~= rungs_of(last, price, size, up));
    out
}

/// The change of a book in a frame.
pub open spec fn change_of<R: Real>(
    symbol: Seq<char>,
    frame: u64,
    last: R,
    price: R,
    tilt: R,
) -> KindView<R> {
    KindView::Depth {
        symbol,
        first_id: if frame == 0 {
            1
        } else {
            (frame + 2) as u64
        },
        last_id: (frame + 2) as u64,
        prev_id: (frame + 1) as u64,
        bids: rungs_of(last, price, whole::<R>(2).spec_plus(tilt), false),
        asks: rungs_of(last, price, whole::<R>(2).spec_minus(tilt), true),
    }
}

/// The trade of an asset in a frame.
pub open spec fn deal_of<R: Real>(symbol: Seq<char>, frame: u64, last: R, price: R) -> KindView<R> {
    KindView::Trade {
        symbol,
        id: (frame + 1) as u64,
        price,
        qty: ratio::<R>(1, 100),
        buyer_maker: price.spec_below(last),
    }
}

/// When a frame happens.
pub open spec fn frame_time(frame: u64) -> int {
    OPENING_NS + frame * FRAME_NS
}

/// Whether the clock can hold the time of a frame.
pub fn has_frame(frame: u64) -> (r: bool)
    ensures
        r == (frame_time(frame) <= u64::MAX),
{
    frame <= (u64::MAX - OPENING_NS) / FRAME_NS
}

/// The events of a frame of a synthetic market: for each asset a change of its book and a trade,
/// and the timer.
pub open spec fn frame_of<R: Real>(
    symbols: Seq<Seq<char>>,
    frame: u64,
    last: Seq<R>,
    waves: Seq<R>,
    tilts: Seq<R>,
) -> Seq<EventView<R>> {
    let t = frame_time(frame) as u64;
    let p0 = price_of(0, waves[0]);
    let p1 = price_of(1, waves[1]);
    seq![
        synthetic(
            change_of(symbols[0], frame, last[0], p0, tilts[0]),
            (5 * frame + 7) as u64,
            t,
        ),
        synthetic(deal_of(symbols[0], frame, last[0], p0), (5 * frame + 8) as u64, t),
        synthetic(
            change_of(symbols[1], frame, last[1], p1, tilts[1]),
            (5 * frame + 9) as u64,
            t,
        ),
        synthetic(deal_of(symbols[1], frame, last[1], p1), (5 * frame + 10) as u64, t),
        synthetic(KindView::Timer, (5 * frame + 11) as u64, t),
    ]
}

fn price<R: Real>(i: usize, wave: R) -> (r: R)
    ensures
        r == price_of(i as int, wave),
{
    let c: R = center(i);
    c.plus(wave).times(R::from_i64(10)).rounded().over(R::from_i64(10))
}

fn change<R: Real>(symbol: &String, frame: u64, last: R, price: R, tilt: R) -> (r: Kind<R>)
    requires
        frame + 2 <= u64::MAX,
    ensures
        r@ == change_of(symbol@, frame, last, price, tilt),
{
    Kind::Depth {
        symbol: symbol.clone(),
        first_id: if frame == 0 {
            1
        } else {
            frame + 2
        },
        last_id: frame + 2,
        prev_id: frame + 1,
        bids: rungs(last, price, R::from_i64(2).plus(tilt), false),
        asks: rungs(last, price, R::from_i64(2).minus(tilt), true),
    }
}

fn deal<R: Real>(symbol: &String, frame: u64, last: R, price: R) -> (r: Kind<R>)
    requires
        frame + 1 <= u64::MAX,
    ensures
        r@ == deal_of(symbol@, frame, last, price),
{
    Kind::Trade {
        symbol: symbol.clone(),
        id: frame + 1,
        price,
        qty: quotient(1, 100),
        buyer_maker: price.below(last),
    }
}

/// The events of a frame of a synthetic market whose last prices are given. They become the prices
/// of the frame.
pub fn next_frame<R: Real>(
    symbols: &Vec<String>,
    frame: u64,
    last: &mut [R; 2],
    waves: [R; 2],
    tilts: [R; 2],
) -> (r: Vec<Event<R>>)
    requires
        symbols@.len() == 2,
        frame_time(frame) <= u64::MAX,
    ensures
        event_views(r@) == frame_of(texts(symbols@), frame, old(last)@, waves@, tilts@),
        final(last)@ == seq![price_of(0, waves@[0]), price_of(1, waves@[1])],
{
    let t: u64 = OPENING_NS + frame * FRAME_NS;
    let p0 = price(0, waves[0]);
    let p1 = price(1, waves[1]);
    let mut out: Vec<Event<R>> = Vec::new();
    out.push(event(change(&symbols[0], frame, last[0], p0, tilts[0]), 5 * frame + 7, t));
    out.push(event(deal(&symbols[0], frame, last[0], p0), 5 * frame + 8, t));
    out.push(event(change(&symbols[1], frame, last[1], p1, tilts[1]), 5 * frame + 9, t));
    out.push(event(deal(&symbols[1], frame, last[1], p1), 5 * frame + 10, t));
    out.push(event(Kind::Timer, 5 * frame + 11, t));
    assert(event_views(out@) =~= frame_of(texts(symbols@), frame, last@, waves@, tilts@));
    *last = [p0, p1];
    assert(last@ =~= seq![price_of(0, waves@[0]), price_of(1, waves@[1])]);
    out
}

/// Checks the size and pace of a benchmark.
pub fn check_benchmark(events: usize, rate: u64) -> (r: Result<(), Error>)
    ensures
        r == if events >= 1000 && rate > 0 {
            Ok::<(), Error>(())
        } else {
            Err::<(), Error>(Error::BenchmarkTooSmall)
        },
{
    if events >= 1000 && rate > 0 {
        Ok(())
    } else {
        Err(Error::BenchmarkTooSmall)
    }
}

/// When the `i`th event of a benchmark is offered, in nanoseconds from its start.
pub fn deadline_ns(i: u64, rate: u64) -> (r: u64)
    requires
        rate > 0,
    ensures
        r == ((i * SECOND) / rate as int) % 0x1_0000_0000_0000_0000,
{
    assert(0 <= i * SECOND <= u64::MAX * SECOND) by (nonlinear_arith)
        requires
            0 <= i <= u64::MAX,
            SECOND >= 0,
    ;
    low_ns((i as u128 * SECOND as u128) / rate as u128)
}

/// Whether an event that was received at `t`, behind which the engine stands, made it decide:
/// a sample was taken at it, and the history was five seconds long.
pub open spec fn made_decision<R>(engine: EngineView<R>, previous_sample_ns: u64, t: u64) -> bool {
    &&& engine.last_sample_ns != previous_sample_ns
    &&& engine.healthy_since is Some
    &&& t >= engine.healthy_since->0 + 5000 * MS
}

/// Whether an event made the engine decide.
pub fn is_decision<R: Real>(engine: &Engine<R>, previous_sample_ns: u64, t: u64) -> (r: bool)
    ensures
        r == made_decision(engine@, previous_sample_ns, t),
{
    if engine.last_sample_ns == previous_sample_ns {
        return false;
    }
    match engine.healthy_since {
        None => false,
        Some(since) => t >= since && t - since >= 5000 * MS,
    }
}

fn repeated<R: Real>(x: R, n: usize) -> (r: Vec<R>)
    ensures
        r@ == Seq::new(n as nat, |i: int| x),
{
    let mut out: Vec<R> = Vec::new();
    let mut i: usize = 0;
    while i < n
        invariant
            i <= n,
            out@ == Seq::new(i as nat, |i: int| x),
        decreases n - i,
    {
        out.push(x);
        i = i + 1;
        assert(out@ =~= Seq::new(i as nat, |i: int| x));
    }
    out
}

fn zeros(n: usize) -> (r: String)
    ensures
        r@ == Seq::new(n as nat, |i: int| '0'),
{
    let mut out = String::new();
    let mut i: usize = 0;
    assert(out@ =~= Seq::new(0, |i: int| '0'));
    while i < n
        invariant
            i <= n,
            out@ == Seq::new(i as nat, |i: int| '0'),
        decreases n - i,
    {
        out.push('0');
        i = i + 1;
        assert(out@ =~= Seq::new(i as nat, |i: int| '0'));
    }
    out
}

/// How many features a model has.
pub const FEATURES: usize = 37;

/// A model that always predicts a rise of 20 basis points.
pub open spec fn is_bullish<R: Real>(m: Model<R>, symbols: Seq<Seq<char>>, i: int) -> bool {
    &&& m.version == 1
    &&& m.symbol@ == symbols[i]
    &&& texts(m.features@) == feature_names(symbols)
    &&& m.mean@ == Seq::new(FEATURES as nat, |k: int| zero::<R>())
    &&& m.scale@ == Seq::new(FEATURES as nat, |k: int| whole::<R>(1))
    &&& m.coefficients@ == Seq::new(FEATURES as nat, |k: int| zero::<R>())
    &&& m.intercept == whole::<R>(20)
    &&& m.horizon_ms == 1000
    &&& m.trained_through_ns == 0
    &&& m.selected_through_ns == 0
    &&& m.dataset_sha256@ == Seq::new(64, |k: int| '0')
    &&& m.entry_buffer_bps == zero::<R>()
    &&& m.alpha == whole::<R>(1)
}

/// The models of a benchmark, one for each asset.
pub fn benchmark_models<R: Real>(c: &Config<R>) -> (r: Vec<Model<R>>)
    ensures
        r@.len() == c.symbols@.len(),
        forall|i: int| 0 <= i < r@.len() ==> is_bullish(#[trigger] r@[i], c.names(), i),
{
    let mut out: Vec<Model<R>> = Vec::new();
    let mut i: usize = 0;
    while i < c.symbols.len()
        invariant
            i <= c.symbols.len(),
            out@.len() == i,
            forall|k: int| 0 <= k < out@.len() ==> is_bullish(#[trigger] out@[k], c.names(), k),
        decreases c.symbols.len() - i,
    {
        out.push(
            Model {
                version: 1,
                symbol: c.symbols[i].clone(),
                features: names(c.symbols.as_slice()),
                mean: repeated(R::from_i64(0), FEATURES),
                scale: repeated(R::from_i64(1), FEATURES),
                coefficients: repeated(R::from_i64(0), FEATURES),
                intercept: R::from_i64(20),
                horizon_ms: 1000,
                trained_through_ns: 0,
                selected_through_ns: 0,
                dataset_sha256: zeros(64),
                entry_buffer_bps: R::from_i64(0),
                alpha: R::from_i64(1),
            },
        );
        i = i + 1;
    }
    out
}

/// The updates of a synthetic market form one chain: the first bridges the opening book, and each
/// later one names its predecessor.
pub proof fn law_synthetic_updates_chain<R: Real>(
    book: BookView<R>,
    symbol: Seq<char>,
    frame: u64,
    last: R,
    price: R,
    tilt: R,
)
    requires
        frame + 2 <= u64::MAX,
        book.last_id == Some((frame + 1) as u64),
        book.synced == (frame > 0),
    ensures
        change_of(symbol, frame, last, price, tilt) matches KindView::Depth {
            first_id,
            last_id,
            prev_id,
            ..
        } && first_id <= last_id && last_id == frame + 2 && !book.covers(
            (frame + 1) as u64,
            last_id,
        ) && book.continues((frame + 1) as u64, first_id, last_id, prev_id),
{
}

} // verus!
