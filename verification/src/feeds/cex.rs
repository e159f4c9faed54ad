//! The exchange feed: a crash that is played in a loop, or the quotes of a stream.

use vstd::prelude::*;

use crate::binary64::double::Double;
use crate::binary64::model::Value;
use crate::markets::{SimConfig, SimConfigModel};
use crate::types::{AppState, CexModel, CexSnapshot, StateModel};

verus! {

/// How long a dropped stream waits before it is opened again, in milliseconds.
pub const RECONNECT_MS: u64 = 2_000;

/// How often the crash is sampled, in milliseconds.
pub const SAMPLE_MS: u64 = 200;

/// What `str::to_lowercase` makes of a string.
pub uninterp spec fn lowercase(s: Seq<char>) -> Seq<char>;

/// `str::to_lowercase` replaces each character by its lowercase form, as Unicode has it;
/// the result depends on the string alone. No clause says what the forms are.
pub assume_specification[ str::to_lowercase ](s: &str) -> (r: String)
    ensures
        r@ == lowercase(s@),
;

/// Where the quotes of a pair are streamed from.
pub open spec fn stream_address(pair: Seq<char>) -> Seq<char> {
    "wss://stream.binance.com:9443/ws/"@ + pair + "@bookTicker"@
}

/// Where the quotes of a pair are streamed from.
pub fn stream_url(pair: &str) -> (r: String)
    ensures
        r@ == stream_address(pair@),
{
    let mut url: String = "wss://stream.binance.com:9443/ws/".to_owned();
    url.append(pair);
    url.append("@bookTicker");
    url
}

/// The price of the crash `t` seconds in: it stays at the top for twenty seconds, falls to
/// the bottom within a minute, wins back twelve percent of the fall until the fourth minute
/// is over, and stays there until the cycle begins again.
pub open spec fn crash_price_at(t: Value, cfg: SimConfigModel) -> Value {
    let phase = t.modulo(cfg.cycle_secs);
    let top = cfg.crash_top_px;
    let bot = cfg.crash_bottom_px;
    let fall = top.minus(bot);
    let rebound = fall.times(Value::ratio(12, 100));
    if phase.lt(Value::whole(20)) {
        top
    } else if phase.lt(Value::whole(80)) {
        top.minus(fall.times(phase.minus(Value::whole(20)).over(Value::whole(60))))
    } else if phase.lt(Value::whole(240)) {
        bot.plus(rebound.times(phase.minus(Value::whole(80)).over(Value::whole(160))))
    } else {
        bot.plus(rebound)
    }
}

/// The price of the crash `t` seconds in.
pub fn crash_price(t: Double, cfg: &SimConfig) -> (r: Double)
    ensures
        r@ == crash_price_at(t@, cfg@),
{
    let phase: Double = t.modulo(cfg.cycle_secs);
    let top: Double = cfg.crash_top_px;
    let bot: Double = cfg.crash_bottom_px;

    if phase.lt(Double::from_u64(20)) {
        top
    } else if phase.lt(Double::from_u64(80)) {
        let p: Double = phase.minus(Double::from_u64(20)).over(Double::from_u64(60));
        top.minus(top.minus(bot).times(p))
    } else if phase.lt(Double::from_u64(240)) {
        let p: Double = phase.minus(Double::from_u64(80)).over(Double::from_u64(160));
        bot.plus(top.minus(bot).times(Double::ratio(12, 100)).times(p))
    } else {
        bot.plus(top.minus(bot).times(Double::ratio(12, 100)))
    }
}

/// The quote around a price of the crash: 0.8 basis points to either side.
pub open spec fn crash_quote_at(price: Value, ts: u128) -> CexModel {
    let half_spread = Value::ratio(8, 100_000);
    CexModel {
        bid: price.times(Value::one().minus(half_spread)),
        ask: price.times(Value::one().plus(half_spread)),
        mid: price,
        ts,
    }
}

/// A quote of the stream: both sides have to be numbers above zero.
pub open spec fn book_quote_at(bid: Value, ask: Value, ts: u128) -> Option<CexModel> {
    if Value::zero().lt(bid) && Value::zero().lt(ask) {
        Some(CexModel { bid, ask, mid: bid.plus(ask).over(Value::whole(2)), ts })
    } else {
        None
    }
}

/// What came in on the stream.
#[derive(Debug, Clone, Copy)]
pub enum Frame {
    /// A text that is a ticker, with the two prices as far as they are numbers.
    Ticker { bid: Option<Double>, ask: Option<Double> },
    /// A text that is none.
    Noise,
    Ping,
    Closed,
    Failed,
    Other,
}

/// What is done about it.
#[derive(Debug, Clone, Copy, PartialEq, Eq, Structural)]
pub enum Reply {
    /// The state has a new quote.
    Quoted,
    /// A ping is answered.
    Pong,
    /// The stream is given up.
    Stop,
    /// Nothing.
    Skip,
}

/// The quote that a frame holds.
pub open spec fn quote_of(frame: Frame, ts: u128) -> Option<CexModel> {
    match frame {
        Frame::Ticker { bid: Some(b), ask: Some(a) } => book_quote_at(b@, a@, ts),
        _ => None,
    }
}

/// What is done about a frame.
pub open spec fn reply_to(frame: Frame, ts: u128) -> Reply {
    match frame {
        Frame::Ping => Reply::Pong,
        Frame::Closed => Reply::Stop,
        Frame::Failed => Reply::Stop,
        _ => if quote_of(frame, ts) is Some {
            Reply::Quoted
        } else {
            Reply::Skip
        },
    }
}

/// The state with a new quote, if there is one.
pub open spec fn quoted(state: StateModel, quote: Option<CexModel>) -> StateModel {
    match quote {
        Some(q) => StateModel { cex: Some(q), ..state },
        None => state,
    }
}

fn book_quote(bid: Double, ask: Double, ts: u128) -> (r: Option<CexSnapshot>)
    ensures
        match r {
            Some(q) => book_quote_at(bid@, ask@, ts) == Some(q@),
            None => book_quote_at(bid@, ask@, ts) is None,
        },
{
    if Double::zero().lt(bid) && Double::zero().lt(ask) {
        let mid: Double = bid.plus(ask).over(Double::from_u64(2));
        Some(CexSnapshot { bid, ask, mid, ts })
    } else {
        None
    }
}

/// Takes in a frame of the stream.
pub fn take_frame(frame: Frame, state: &mut AppState, ts: u128) -> (r: Reply)
    ensures
        r == reply_to(frame, ts),
        final(state)@ == quoted(old(state)@, quote_of(frame, ts)),
{
    match frame {
        Frame::Ticker { bid: Some(b), ask: Some(a) } => match book_quote(b, a, ts) {
            Some(quote) => {
                state.cex = Some(quote);
                Reply::Quoted
            },
            None => Reply::Skip,
        },
        Frame::Ping => Reply::Pong,
        Frame::Closed => Reply::Stop,
        Frame::Failed => Reply::Stop,
        _ => Reply::Skip,
    }
}

/// The exchange feed.
#[derive(Debug, Clone)]
pub struct CexFeed {
    pub pair: String,
    pub sim: bool,
    pub sim_cfg: SimConfig,
}

impl CexFeed {
    /// A feed of a pair, which the stream wants in lowercase.
    pub fn new(pair: String, sim: bool, sim_cfg: SimConfig) -> (r: CexFeed)
        ensures
            r.pair@ == lowercase(pair@),
            r.sim == sim,
            r.sim_cfg == sim_cfg,
    {
        CexFeed { pair: pair.as_str().to_lowercase(), sim, sim_cfg }
    }

    /// Where the feed's quotes are streamed from.
    pub fn url(&self) -> (r: String)
        ensures
            r@ == stream_address(self.pair@),
    {
        stream_url(self.pair.as_str())
    }

    /// Samples the crash `t` seconds in.
    pub fn crash_step(&self, t: Double, state: &mut AppState, ts: u128)
        ensures
            final(state)@ == quoted(
                old(state)@,
                Some(crash_quote_at(crash_price_at(t@, self.sim_cfg@), ts)),
            ),
    {
        let price: Double = crash_price(t, &self.sim_cfg);
        let half_spread: Double = Double::ratio(8, 100_000);
        state.cex = Some(
            CexSnapshot {
                bid: price.times(Double::one().minus(half_spread)),
                ask: price.times(Double::one().plus(half_spread)),
                mid: price,
                ts,
            },
        );
    }
}

} // verus!
