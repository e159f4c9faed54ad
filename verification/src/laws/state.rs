//! The shared state.

use vstd::prelude::*;

use crate::binary64::model::Value;
use crate::feeds::cex::quoted;
use crate::shadow::engine::{analysis, ticked};
use crate::types::{CexModel, StateModel};

verus! {

/// A look at the state leaves positions and prices as they are. Once both prices are there
/// it finds one analysis for each position, in order, each from that position alone; before,
/// it finds nothing new.
pub proof fn law_tick_covers_every_position(state: StateModel, now: u64, gas: Value)
    ensures
        ({
            let after = ticked(state, now, gas);
            &&& after.positions == state.positions
            &&& after.cex == state.cex
            &&& after.oracle == state.oracle
            &&& state.cex is None || state.oracle is None ==> after == state
            &&& state.cex is Some && state.oracle is Some ==> {
                &&& after.analyses.len() == state.positions.len()
                &&& forall|i: int|
                    0 <= i < state.positions.len() ==> #[trigger] after.analyses[i] == analysis(
                        state.positions[i],
                        state.cex->0.mid,
                        state.oracle->0.price,
                        now,
                        gas,
                    )
                &&& forall|i: int|
                    0 <= i < state.positions.len() ==> (
                    #[trigger] after.analyses[i]).market_id == state.positions[i].market_id
            }
        }),
{
}

/// A second look at the same time finds the same.
pub proof fn law_tick_repeats(state: StateModel, now: u64, gas: Value)
    ensures
        ticked(ticked(state, now, gas), now, gas) == ticked(state, now, gas),
{
}

/// What has been found depends on the last quote alone, not on those before it.
pub proof fn law_last_quote_counts(
    state: StateModel,
    first: CexModel,
    last: CexModel,
    now: u64,
    gas: Value,
)
    requires
        state.oracle is Some,
    ensures
        ticked(quoted(ticked(quoted(state, Some(first)), now, gas), Some(last)), now, gas)
            == ticked(quoted(state, Some(last)), now, gas),
{
}

} // verus!
