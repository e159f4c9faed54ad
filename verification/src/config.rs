//! What the program can be told on its command line.

use vstd::prelude::*;

verus! {

#[derive(Debug, Clone)]
pub struct Args {
    /// Where the markets are configured.
    pub markets: String,
    /// The trading pair of the exchange, for the live feed.
    pub pair: String,
    /// Whether the crash is played instead of the live feeds.
    pub sim: bool,
    /// The mean wait of an oracle update, in seconds.
    pub oracle_lag_s: u64,
    /// The Ethereum RPC address, for the live feed.
    pub rpc: String,
}

impl Default for Args {
    fn default() -> (r: Args)
        ensures
            r.markets@ == "config/markets.toml"@,
            r.pair@ == "ETHUSDC"@,
            !r.sim,
            r.oracle_lag_s == 180,
            r.rpc@ == "https://eth-mainnet.g.alchemy.com/v2/YOUR_KEY"@,
    {
        Args {
            markets: "config/markets.toml".to_owned(),
            pair: "ETHUSDC".to_owned(),
            sim: false,
            oracle_lag_s: 180,
            rpc: "https://eth-mainnet.g.alchemy.com/v2/YOUR_KEY".to_owned(),
        }
    }
}

} // verus!
