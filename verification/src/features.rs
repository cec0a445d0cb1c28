//! The feature vector: what a model sees of the two books.
use crate::book::{Book, BookView};
use crate::number::{empty_sum, nothing, quotient, ratio, whole, zero, Real};
use crate::text::{joined, texts};
use crate::types::{Event, EventView, Kind, KindView, MS, SECOND};
use std::collections::VecDeque;
use vstd::prelude::*;

verus! {

/// What the features of one asset are called, behind its symbol.
pub open spec fn asset_suffixes() -> Seq<Seq<char>> {
    seq![
        ".spread_bps"@,
        ".microprice_bps"@,
        ".imbalance_1"@,
        ".imbalance_5"@,
        ".imbalance_10"@,
        ".ofi_100ms"@,
        ".trade_flow_100ms"@,
        ".return_bps_100ms"@,
        ".volatility_bps_100ms"@,
        ".ofi_1000ms"@,
        ".trade_flow_1000ms"@,
        ".return_bps_1000ms"@,
        ".volatility_bps_1000ms"@,
        ".ofi_5000ms"@,
        ".trade_flow_5000ms"@,
        ".return_bps_5000ms"@,
        ".volatility_bps_5000ms"@,
    ]
}

/// What the features of the pair are called.
pub open spec fn cross_names() -> Seq<Seq<char>> {
    seq![
        "BTC_minus_ETH.return_100ms"@,
        "BTC_minus_ETH.return_1000ms"@,
        "BTC_minus_ETH.return_5000ms"@,
    ]
}

/// What the features of one asset are called.
pub open spec fn asset_names(symbol: Seq<char>) -> Seq<Seq<char>> {
    asset_suffixes().map_values(|suffix: Seq<char>| symbol + suffix)
}

/// What the features of a list of assets are called.
pub open spec fn assets_names(symbols: Seq<Seq<char>>) -> Seq<Seq<char>>
    decreases symbols.len(),
{
    if symbols.len() == 0 {
        Seq::empty()
    } else {
        assets_names(symbols.drop_last()) + asset_names(symbols.last())
    }
}

/// The names of the feature vector: asset by asset, then those of the pair.
pub open spec fn feature_names(symbols: Seq<Seq<char>>) -> Seq<Seq<char>> {
    assets_names(symbols) + cross_names()
}

fn push_joined(out: &mut Vec<String>, symbol: &str, suffix: &str)
    ensures
        texts(final(out)@) == texts(old(out)@).push(symbol@ + suffix@),
{
    out.push(joined(symbol, suffix));
    assert(texts(out@) =~= texts(old(out)@).push(symbol@ + suffix@));
}

fn push_asset(out: &mut Vec<String>, symbol: &str)
    ensures
        texts(final(out)@) == texts(old(out)@) + asset_names(symbol@),
{
    push_joined(out, symbol, ".spread_bps");
    push_joined(out, symbol, ".microprice_bps");
    push_joined(out, symbol, ".imbalance_1");
    push_joined(out, symbol, ".imbalance_5");
    push_joined(out, symbol, ".imbalance_10");
    push_joined(out, symbol, ".ofi_100ms");
    push_joined(out, symbol, ".trade_flow_100ms");
    push_joined(out, symbol, ".return_bps_100ms");
    push_joined(out, symbol, ".volatility_bps_100ms");
    push_joined(out, symbol, ".ofi_1000ms");
    push_joined(out, symbol, ".trade_flow_1000ms");
    push_joined(out, symbol, ".return_bps_1000ms");
    push_joined(out, symbol, ".volatility_bps_1000ms");
    push_joined(out, symbol, ".ofi_5000ms");
    push_joined(out, symbol, ".trade_flow_5000ms");
    push_joined(out, symbol, ".return_bps_5000ms");
    push_joined(out, symbol, ".volatility_bps_5000ms");
    assert(texts(out@) =~= texts(old(out)@) + asset_names(symbol@));
}

/// The names of the feature vector: asset by asset, then those of the pair.
pub fn names(symbols: &[String]) -> (r: Vec<String>)
    ensures
        texts(r@) == feature_names(texts(symbols@)),
{
    let mut out: Vec<String> = Vec::new();
    let mut i: usize = 0;
    assert(texts(out@) =~= assets_names(texts(symbols@).take(0)));
    while i < symbols.len()
        invariant
            i <= symbols.len(),
            texts(out@) == assets_names(texts(symbols@).take(i as int)),
        decreases symbols.len() - i,
    {
        proof {
            let next = texts(symbols@).take(i + 1);
            assert(next.drop_last() =~= texts(symbols@).take(i as int));
        }
        push_asset(&mut out, symbols[i].as_str());
        i = i + 1;
    }
    assert(texts(symbols@).take(symbols@.len() as int) =~= texts(symbols@));
    let ghost assets = texts(out@);
    out.push("BTC_minus_ETH.return_100ms".to_owned());
    out.push("BTC_minus_ETH.return_1000ms".to_owned());
    out.push("BTC_minus_ETH.return_5000ms".to_owned());
    assert(texts(out@) =~= assets + cross_names());
    out
}

/// There are seventeen features for each asset and three for the pair.
pub proof fn law_feature_count(symbols: Seq<Seq<char>>)
    ensures
        feature_names(symbols).len() == 17 * symbols.len() + 3,
{
    lemma_assets_count(symbols);
}

proof fn lemma_assets_count(symbols: Seq<Seq<char>>)
    ensures
        assets_names(symbols).len() == 17 * symbols.len(),
    decreases symbols.len(),
{
    if symbols.len() > 0 {
        lemma_assets_count(symbols.drop_last());
    }
}

/// What is remembered of one asset: mid prices, order flow and trades of the last five seconds,
/// each with the time at which it was received.
#[derive(Clone, Debug)]
pub struct History<R> {
    pub mids: VecDeque<(u64, R)>,
    pub flow: VecDeque<(u64, R)>,
    pub trades: VecDeque<(u64, R, R)>,
    pub last_top: Option<(R, R, R, R)>,
    pub last_trade: Option<u64>,
}

/// The mathematical content of a [`History`].
#[verifier::ext_equal]
pub struct HistoryView<R> {
    pub mids: Seq<(u64, R)>,
    pub flow: Seq<(u64, R)>,
    pub trades: Seq<(u64, R, R)>,
    pub last_top: Option<(R, R, R, R)>,
    pub last_trade: Option<u64>,
}

impl<R> View for History<R> {
    type V = HistoryView<R>;

    open spec fn view(&self) -> HistoryView<R> {
        HistoryView {
            mids: self.mids@,
            flow: self.flow@,
            trades: self.trades@,
            last_top: self.last_top,
            last_trade: self.last_trade,
        }
    }
}

/// A time minus a duration, but not before the start of the clock.
pub open spec fn earlier(t: u64, by: int) -> u64 {
    if t >= by {
        (t - by) as u64
    } else {
        0
    }
}

/// Mid prices without those that a later one at or before `cutoff` supersedes.
pub open spec fn trimmed_mids<R>(s: Seq<(u64, R)>, cutoff: u64) -> Seq<(u64, R)>
    decreases s.len(),
{
    if s.len() > 1 && s[1].0 <= cutoff {
        trimmed_mids(s.drop_first(), cutoff)
    } else {
        s
    }
}

/// Order flow without its leading entries at or before `cutoff`.
pub open spec fn trimmed_flow<R>(s: Seq<(u64, R)>, cutoff: u64) -> Seq<(u64, R)>
    decreases s.len(),
{
    if s.len() > 0 && s[0].0 <= cutoff {
        trimmed_flow(s.drop_first(), cutoff)
    } else {
        s
    }
}

/// Trades without the leading ones at or before `cutoff`.
pub open spec fn trimmed_trades<R>(s: Seq<(u64, R, R)>, cutoff: u64) -> Seq<(u64, R, R)>
    decreases s.len(),
{
    if s.len() > 0 && s[0].0 <= cutoff {
        trimmed_trades(s.drop_first(), cutoff)
    } else {
        s
    }
}

/// The order flow between two tops of a book: what was added at the bid and taken from the ask,
/// as a share of what the later top displays.
pub open spec fn flow_between<R: Real>(prev: (R, R, R, R), top: (R, R, R, R)) -> R {
    let (pb, pbq, pa, paq) = prev;
    let (b, bq, a, aq) = top;
    let added = if pb.spec_within(b) {
        bq
    } else {
        zero::<R>()
    };
    let withdrawn = if b.spec_within(pb) {
        pbq
    } else {
        zero::<R>()
    };
    let offered = if a.spec_within(pa) {
        aq
    } else {
        zero::<R>()
    };
    let lifted = if pa.spec_within(a) {
        paq
    } else {
        zero::<R>()
    };
    added.spec_minus(withdrawn).spec_minus(offered).spec_plus(lifted).spec_over(
        bq.spec_plus(aq).spec_larger(ratio::<R>(1, 1_000_000_000_000)),
    )
}

/// The latest mid price at or before a time.
pub open spec fn mid_at<R>(mids: Seq<(u64, R)>, t: u64) -> Option<R>
    decreases mids.len(),
{
    if mids.len() == 0 {
        None
    } else if mids.last().0 <= t {
        Some(mids.last().1)
    } else {
        mid_at(mids.drop_last(), t)
    }
}

/// The sum of the order flow after a time.
pub open spec fn flow_after<R: Real>(flow: Seq<(u64, R)>, t: u64) -> R
    decreases flow.len(),
{
    if flow.len() == 0 {
        nothing::<R>()
    } else if flow.last().0 > t {
        flow_after(flow.drop_last(), t).spec_plus(flow.last().1)
    } else {
        flow_after(flow.drop_last(), t)
    }
}

/// The sum of the signed quantities traded after a time.
pub open spec fn signed_after<R: Real>(trades: Seq<(u64, R, R)>, t: u64) -> R
    decreases trades.len(),
{
    if trades.len() == 0 {
        nothing::<R>()
    } else if trades.last().0 > t {
        signed_after(trades.drop_last(), t).spec_plus(trades.last().1)
    } else {
        signed_after(trades.drop_last(), t)
    }
}

/// The sum of the quantities traded after a time.
pub open spec fn volume_after<R: Real>(trades: Seq<(u64, R, R)>, t: u64) -> R
    decreases trades.len(),
{
    if trades.len() == 0 {
        nothing::<R>()
    } else if trades.last().0 > t {
        volume_after(trades.drop_last(), t).spec_plus(trades.last().2)
    } else {
        volume_after(trades.drop_last(), t)
    }
}

/// A log return in basis points.
pub open spec fn return_bps<R: Real>(to: R, from: R) -> R {
    whole::<R>(10_000).spec_times(to.spec_over(from).spec_log())
}

/// A log return in basis points.
pub fn log_return<R: Real>(to: R, from: R) -> (r: R)
    ensures
        r == return_bps(to, from),
{
    R::from_i64(10_000).times(to.over(from).log())
}

/// The last mid price after a time, or the base where there is none, and the sum of the squared
/// returns from each mid price after that time to the next, the first from the base.
pub open spec fn path_after<R: Real>(mids: Seq<(u64, R)>, t: u64, base: R) -> (R, R)
    decreases mids.len(),
{
    if mids.len() == 0 {
        (base, zero::<R>())
    } else {
        let (prev, variance) = path_after(mids.drop_last(), t, base);
        if mids.last().0 > t {
            let step = return_bps(mids.last().1, prev);
            (mids.last().1, variance.spec_plus(step.spec_times(step)))
        } else {
            (prev, variance)
        }
    }
}

impl<R: Real> HistoryView<R> {
    /// A history of nothing.
    pub open spec fn blank() -> HistoryView<R> {
        HistoryView {
            mids: Seq::empty(),
            flow: Seq::empty(),
            trades: Seq::empty(),
            last_top: None,
            last_trade: None,
        }
    }

    /// The history with what an event adds to it. A trade that is not newer than the last one
    /// adds nothing.
    pub open spec fn recorded(self, e: EventView<R>, book: BookView<R>) -> HistoryView<R> {
        match e.kind {
            KindView::Depth { .. } => match book.top() {
                Some(top) => HistoryView {
                    mids: self.mids.push(
                        (e.recv_ns, top.0.spec_plus(top.2).spec_over(whole::<R>(2))),
                    ),
                    flow: match self.last_top {
                        Some(prev) => self.flow.push((e.recv_ns, flow_between(prev, top))),
                        None => self.flow,
                    },
                    last_top: Some(top),
                    ..self
                },
                None => self,
            },
            KindView::Trade { symbol, id, price, qty, buyer_maker } => if self.last_trade is None
                || id > self.last_trade->0 {
                HistoryView {
                    trades: self.trades.push(
                        (
                            e.recv_ns,
                            if buyer_maker {
                                qty.spec_negated()
                            } else {
                                qty
                            },
                            qty,
                        ),
                    ),
                    last_trade: Some(id),
                    ..self
                }
            } else {
                self
            },
            _ => self,
        }
    }

    /// The history after an event of its asset.
    pub open spec fn observed(self, e: EventView<R>, book: BookView<R>) -> HistoryView<R> {
        let cutoff = earlier(e.recv_ns, 5 * SECOND);
        let next = self.recorded(e, book);
        HistoryView {
            mids: trimmed_mids(next.mids, cutoff),
            flow: trimmed_flow(next.flow, cutoff),
            trades: trimmed_trades(next.trades, cutoff),
            ..next
        }
    }

    /// The history after a timer.
    pub open spec fn sampled(self, now: u64, book: BookView<R>) -> HistoryView<R> {
        let mids = match book.mid() {
            Some(mid) => self.mids.push((now, mid)),
            None => self.mids,
        };
        HistoryView { mids: trimmed_mids(mids, earlier(now, 5 * SECOND)), ..self }
    }

    /// Order flow, trade flow, return and volatility over the last `window_ms`.
    pub open spec fn window(self, now: u64, window_ms: u64, mid: R) -> Option<Seq<R>> {
        let start = earlier(now, window_ms * MS);
        match mid_at(self.mids, start) {
            None => None,
            Some(base) => Some(
                seq![
                    flow_after(self.flow, start),
                    signed_after(self.trades, start).spec_over(
                        volume_after(self.trades, start).spec_larger(
                            ratio::<R>(1, 1_000_000_000_000),
                        ),
                    ),
                    return_bps(mid, base),
                    path_after(self.mids, start, base).1.spec_root(),
                ],
            ),
        }
    }

    /// The features of one asset, where the book has a top and the history reaches back far
    /// enough.
    pub open spec fn vector(self, now: u64, book: BookView<R>) -> Option<Seq<R>> {
        match book.top() {
            None => None,
            Some((b, bq, a, aq)) => {
                let mid = b.spec_plus(a).spec_over(whole::<R>(2));
                let micro = a.spec_times(bq).spec_plus(b.spec_times(aq)).spec_over(
                    bq.spec_plus(aq),
                );
                let head = seq![
                    a.spec_minus(b).spec_over(mid).spec_times(whole::<R>(10_000)),
                    micro.spec_over(mid).spec_minus(whole::<R>(1)).spec_times(whole::<R>(10_000)),
                    book.imbalance(1),
                    book.imbalance(5),
                    book.imbalance(10),
                ];
                match (
                    self.window(now, 100, mid),
                    self.window(now, 1000, mid),
                    self.window(now, 5000, mid),
                ) {
                    (Some(short), Some(medium), Some(long)) => Some(head + short + medium + long),
                    _ => None,
                }
            },
        }
    }
}

impl<R: Real> Default for History<R> {
    fn default() -> (r: Self)
        ensures
            r@ == HistoryView::<R>::blank(),
    {
        History {
            mids: VecDeque::new(),
            flow: VecDeque::new(),
            trades: VecDeque::new(),
            last_top: None,
            last_trade: None,
        }
    }
}

fn earlier_by(t: u64, by: u64) -> (r: u64)
    ensures
        r == earlier(t, by as int),
{
    if t >= by {
        t - by
    } else {
        0
    }
}

fn trim_mids<R: Real>(mids: &mut VecDeque<(u64, R)>, cutoff: u64)
    ensures
        final(mids)@ == trimmed_mids(old(mids)@, cutoff),
{
    while mids.len() > 1 && mids[1].0 <= cutoff
        invariant
            trimmed_mids(mids@, cutoff) == trimmed_mids(old(mids)@, cutoff),
        decreases mids.len(),
    {
        let ghost before = mids@;
        mids.pop_front();
        assert(mids@ =~= before.drop_first());
    }
}

fn trim_flow<R: Real>(flow: &mut VecDeque<(u64, R)>, cutoff: u64)
    ensures
        final(flow)@ == trimmed_flow(old(flow)@, cutoff),
{
    while flow.len() > 0 && flow[0].0 <= cutoff
        invariant
            trimmed_flow(flow@, cutoff) == trimmed_flow(old(flow)@, cutoff),
        decreases flow.len(),
    {
        let ghost before = flow@;
        flow.pop_front();
        assert(flow@ =~= before.drop_first());
    }
}

fn trim_trades<R: Real>(trades: &mut VecDeque<(u64, R, R)>, cutoff: u64)
    ensures
        final(trades)@ == trimmed_trades(old(trades)@, cutoff),
{
    while trades.len() > 0 && trades[0].0 <= cutoff
        invariant
            trimmed_trades(trades@, cutoff) == trimmed_trades(old(trades)@, cutoff),
        decreases trades.len(),
    {
        let ghost before = trades@;
        trades.pop_front();
        assert(trades@ =~= before.drop_first());
    }
}

fn order_flow<R: Real>(prev: (R, R, R, R), top: (R, R, R, R)) -> (r: R)
    ensures
        r == flow_between(prev, top),
{
    let (pb, pbq, pa, paq) = prev;
    let (b, bq, a, aq) = top;
    let none: R = R::from_i64(0);
    let added = if pb.within(b) {
        bq
    } else {
        none
    };
    let withdrawn = if b.within(pb) {
        pbq
    } else {
        none
    };
    let offered = if a.within(pa) {
        aq
    } else {
        none
    };
    let lifted = if pa.within(a) {
        paq
    } else {
        none
    };
    added.minus(withdrawn).minus(offered).plus(lifted).over(
        bq.plus(aq).larger(quotient(1, 1_000_000_000_000)),
    )
}

impl<R: Real> History<R> {
    /// Takes note of an event of the asset, whose book has already seen it.
    pub fn observe(&mut self, e: &Event<R>, book: &Book<R>)
        ensures
            final(self)@ == old(self)@.observed(e@, book@),
    {
        match &e.kind {
            Kind::Depth { .. } => {
                if let Some((b, bq, a, aq)) = book.top() {
                    self.mids.push_back((e.recv_ns, b.plus(a).over(R::from_i64(2))));
                    if let Some(prev) = self.last_top {
                        self.flow.push_back((e.recv_ns, order_flow(prev, (b, bq, a, aq))));
                    }
                    self.last_top = Some((b, bq, a, aq));
                }
            },
            Kind::Trade { id, qty, buyer_maker, .. } => {
                let newer = match self.last_trade {
                    None => true,
                    Some(last) => *id > last,
                };
                if newer {
                    let signed = if *buyer_maker {
                        qty.negated()
                    } else {
                        *qty
                    };
                    self.trades.push_back((e.recv_ns, signed, *qty));
                    self.last_trade = Some(*id);
                }
            },
            _ => {},
        }
        assert(self@ =~= old(self)@.recorded(e@, book@));
        let cutoff: u64 = earlier_by(e.recv_ns, 5 * SECOND);
        trim_mids(&mut self.mids, cutoff);
        trim_flow(&mut self.flow, cutoff);
        trim_trades(&mut self.trades, cutoff);
        assert(self@ =~= old(self)@.observed(e@, book@));
    }

    /// Takes note of the mid price at a timer.
    pub fn sample(&mut self, now: u64, book: &Book<R>)
        ensures
            final(self)@ == old(self)@.sampled(now, book@),
    {
        if let Some(mid) = book.mid() {
            self.mids.push_back((now, mid));
        }
        trim_mids(&mut self.mids, earlier_by(now, 5 * SECOND));
        assert(self@ =~= old(self)@.sampled(now, book@));
    }

    fn base_mid(&self, t: u64) -> (r: Option<R>)
        ensures
            r == mid_at(self.mids@, t),
    {
        let mut n: usize = self.mids.len();
        assert(self.mids@.take(n as int) =~= self.mids@);
        while n > 0
            invariant
                n <= self.mids.len(),
                mid_at(self.mids@, t) == mid_at(self.mids@.take(n as int), t),
            decreases n,
        {
            assert(self.mids@.take(n as int).drop_last() =~= self.mids@.take(n - 1));
            if self.mids[n - 1].0 <= t {
                return Some(self.mids[n - 1].1);
            }
            n = n - 1;
        }
        None
    }

    fn flow_since(&self, t: u64) -> (r: R)
        ensures
            r == flow_after(self.flow@, t),
    {
        let mut sum: R = empty_sum();
        for i in 0..self.flow.len()
            invariant
                sum == flow_after(self.flow@.take(i as int), t),
        {
            assert(self.flow@.take(i + 1).drop_last() =~= self.flow@.take(i as int));
            if self.flow[i].0 > t {
                sum = sum.plus(self.flow[i].1);
            }
        }
        assert(self.flow@.take(self.flow@.len() as int) =~= self.flow@);
        sum
    }

    fn trades_since(&self, t: u64) -> (r: (R, R))
        ensures
            r == (signed_after(self.trades@, t), volume_after(self.trades@, t)),
    {
        let mut signed: R = empty_sum();
        let mut volume: R = empty_sum();
        for i in 0..self.trades.len()
            invariant
                signed == signed_after(self.trades@.take(i as int), t),
                volume == volume_after(self.trades@.take(i as int), t),
        {
            assert(self.trades@.take(i + 1).drop_last() =~= self.trades@.take(i as int));
            if self.trades[i].0 > t {
                signed = signed.plus(self.trades[i].1);
                volume = volume.plus(self.trades[i].2);
            }
        }
        assert(self.trades@.take(self.trades@.len() as int) =~= self.trades@);
        (signed, volume)
    }

    fn variance_since(&self, t: u64, base: R) -> (r: R)
        ensures
            r == path_after(self.mids@, t, base).1,
    {
        let mut prev: R = base;
        let mut variance: R = R::from_i64(0);
        for i in 0..self.mids.len()
            invariant
                (prev, variance) == path_after(self.mids@.take(i as int), t, base),
        {
            assert(self.mids@.take(i + 1).drop_last() =~= self.mids@.take(i as int));
            if self.mids[i].0 > t {
                let mid: R = self.mids[i].1;
                let step = log_return(mid, prev);
                variance = variance.plus(step.times(step));
                prev = mid;
            }
        }
        assert(self.mids@.take(self.mids@.len() as int) =~= self.mids@);
        variance
    }

    fn push_window(&self, out: &mut Vec<R>, now: u64, window_ms: u64, mid: R) -> (r: bool)
        requires
            window_ms <= 5000,
        ensures
            match self@.window(now, window_ms, mid) {
                Some(w) => r && final(out)@ == old(out)@ + w,
                None => !r,
            },
    {
        let start: u64 = earlier_by(now, window_ms * MS);
        match self.base_mid(start) {
            None => false,
            Some(base) => {
                let (signed, volume) = self.trades_since(start);
                out.push(self.flow_since(start));
                out.push(signed.over(volume.larger(quotient(1, 1_000_000_000_000))));
                out.push(log_return(mid, base));
                out.push(self.variance_since(start, base).root());
                assert(out@ =~= old(out)@ + self@.window(now, window_ms, mid)->0);
                true
            },
        }
    }

    /// The features of one asset, where the book has a top and the history reaches back far
    /// enough.
    pub fn vector(&self, now: u64, book: &Book<R>) -> (r: Option<Vec<R>>)
        ensures
            match self@.vector(now, book@) {
                Some(v) => r is Some && r->0@ == v,
                None => r is None,
            },
    {
        match book.top() {
            None => None,
            Some((b, bq, a, aq)) => {
                let mid = b.plus(a).over(R::from_i64(2));
                let micro = a.times(bq).plus(b.times(aq)).over(bq.plus(aq));
                let mut out: Vec<R> = Vec::new();
                out.push(a.minus(b).over(mid).times(R::from_i64(10_000)));
                out.push(micro.over(mid).minus(R::from_i64(1)).times(R::from_i64(10_000)));
                out.push(book.imbalance(1));
                out.push(book.imbalance(5));
                out.push(book.imbalance(10));
                let ghost head = out@;
                if !self.push_window(&mut out, now, 100, mid) {
                    return None;
                }
                if !self.push_window(&mut out, now, 1000, mid) {
                    return None;
                }
                if !self.push_window(&mut out, now, 5000, mid) {
                    return None;
                }
                assert(out@ =~= self@.vector(now, book@)->0);
                Some(out)
            },
        }
    }
}

/// The feature vector of both assets: those of each, then the differences of their returns. There
/// is none where an asset has none or a number is not finite.
pub open spec fn joint_vector<R: Real>(
    first: HistoryView<R>,
    second: HistoryView<R>,
    first_book: BookView<R>,
    second_book: BookView<R>,
    now: u64,
) -> Option<Seq<R>> {
    match (first.vector(now, first_book), second.vector(now, second_book)) {
        (Some(a), Some(b)) => {
            let all = a + b + seq![
                a[7].spec_minus(b[7]),
                a[11].spec_minus(b[11]),
                a[15].spec_minus(b[15]),
            ];
            if all_finite(all) {
                Some(all)
            } else {
                None
            }
        },
        _ => None,
    }
}

/// Whether all numbers are finite.
pub open spec fn all_finite<R: Real>(s: Seq<R>) -> bool {
    forall|i: int| 0 <= i < s.len() ==> (#[trigger] s[i]).spec_is_finite()
}

/// Whether every number is finite.
pub fn finite_all<R: Real>(v: &Vec<R>) -> (r: bool)
    ensures
        r == all_finite(v@),
{
    for i in 0..v.len()
        invariant
            forall|k: int| 0 <= k < i ==> (#[trigger] v@[k]).spec_is_finite(),
    {
        if !v[i].is_finite() {
            assert(!v@[i as int].spec_is_finite());
            return false;
        }
    }
    true
}

/// The feature vector of both assets: those of each, then the differences of their returns. There
/// is none where an asset has none or a number is not finite.
pub fn cross_vector<R: Real>(h: &[History<R>; 2], books: &[Book<R>; 2], now: u64) -> (r: Option<
    Vec<R>,
>)
    ensures
        match joint_vector(h[0]@, h[1]@, books[0]@, books[1]@, now) {
            Some(v) => r is Some && r->0@ == v,
            None => r is None,
        },
{
    let a = match h[0].vector(now, &books[0]) {
        None => return None,
        Some(a) => a,
    };
    let mut b = match h[1].vector(now, &books[1]) {
        None => return None,
        Some(b) => b,
    };
    let ghost first = a@;
    let ghost second = b@;
    let short = a[7].minus(b[7]);
    let medium = a[11].minus(b[11]);
    let long = a[15].minus(b[15]);
    let mut out = a;
    out.append(&mut b);
    out.push(short);
    out.push(medium);
    out.push(long);
    assert(out@ =~= first + second + seq![
        first[7].spec_minus(second[7]),
        first[11].spec_minus(second[11]),
        first[15].spec_minus(second[15]),
    ]);
    if finite_all(&out) {
        Some(out)
    } else {
        None
    }
}

/// A feature vector holds one number for each name of the two assets' features.
pub proof fn law_vector_matches_names<R: Real>(
    symbols: Seq<Seq<char>>,
    first: HistoryView<R>,
    second: HistoryView<R>,
    first_book: BookView<R>,
    second_book: BookView<R>,
    now: u64,
)
    requires
        symbols.len() == 2,
        joint_vector(first, second, first_book, second_book, now) is Some,
    ensures
        joint_vector(first, second, first_book, second_book, now)->0.len() == feature_names(
            symbols,
        ).len(),
{
    law_feature_count(symbols);
}

} // verus!
