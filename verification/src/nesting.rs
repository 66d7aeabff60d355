//! What holds of every execution: what a refusal leaves untouched, how
//! much weight an outcome can report, and what the recursion limit stops
//! and what it leaves alone.

use crate::assets::HoldingModel;
use crate::error::{Outcome, Weight, XcmError};
use crate::executor::{Config, XcmExecutor, MAX_RECURSION_LIMIT};
use crate::location::LocationModel;
use crate::message::XcmModel;
use crate::order::OrderModel;
use crate::traits::WeightTrader;
use vstd::prelude::*;

verus! {

/// The larger of two numbers.
pub open spec fn larger(a: nat, b: nat) -> nat {
    if a >= b {
        a
    } else {
        b
    }
}

/// How many levels of programs are nested inside `message` for execution
/// on this system: zero if no order of it carries a program.
pub open spec fn xcm_nesting(message: XcmModel) -> nat
    decreases message, 0nat,
{
    match message {
        XcmModel::WithdrawAsset { assets, effects } => orders_nesting(effects, 0),
        XcmModel::ReserveAssetDeposited { assets, effects } => orders_nesting(effects, 0),
        XcmModel::ReceiveTeleportedAsset { assets, effects } => orders_nesting(effects, 0),
        _ => 0,
    }
}

/// The deepest nesting among `effects[i..]`.
pub open spec fn orders_nesting(effects: Seq<OrderModel>, i: int) -> nat
    decreases effects, effects.len() - i,
{
    if i < 0 || i >= effects.len() {
        0
    } else {
        larger(order_nesting(effects[i]), orders_nesting(effects, i + 1))
    }
}

/// How many levels of programs are nested inside `order`: zero unless it
/// carries programs, and then one more than the deepest of them.
pub open spec fn order_nesting(order: OrderModel) -> nat
    decreases order, 0nat,
{
    match order {
        OrderModel::BuyExecution { fees, weight, debt, halt_on_error, xcm } => programs_nesting(
            xcm,
            0,
        ),
        _ => 0,
    }
}

/// One more than the deepest nesting among `messages[i..]`, or zero if
/// there are none.
pub open spec fn programs_nesting(messages: Seq<XcmModel>, i: int) -> nat
    decreases messages, messages.len() - i,
{
    if i < 0 || i >= messages.len() {
        0
    } else {
        larger(1 + xcm_nesting(messages[i]), programs_nesting(messages, i + 1))
    }
}

/// A program or an order that is entered beyond the recursion limit fails
/// with `RecursionLimitReached`, and the frame that fails has no effect:
/// the executor, and with it the ledger behind it, and the holding register
/// are as they were.
pub proof fn law_limit_aborts_without_effect<C: Config>(
    executor: XcmExecutor<C>,
    origin: LocationModel,
    holding: HoldingModel,
    message: XcmModel,
    order: OrderModel,
    depth: nat,
)
    requires
        depth > MAX_RECURSION_LIMIT,
    ensures
        executor.run_xcm(origin, message, depth) == (
            executor,
            Err::<Weight, XcmError>(XcmError::RecursionLimitReached),
        ),
        executor.run_order(origin, holding, order, depth) == (
            executor,
            holding,
            Err::<Weight, XcmError>(XcmError::RecursionLimitReached),
        ),
{
}

/// A message whose programs all stay within the recursion limit is executed
/// as if there were no limit: at whatever depth it is entered, as long as
/// its deepest program is within the limit, the result is the same.
pub proof fn law_limit_spares_what_fits<C: Config>(
    executor: XcmExecutor<C>,
    origin: LocationModel,
    message: XcmModel,
    d1: nat,
    d2: nat,
)
    requires
        d1 + xcm_nesting(message) <= MAX_RECURSION_LIMIT,
        d2 + xcm_nesting(message) <= MAX_RECURSION_LIMIT,
    ensures
        executor.run_xcm(origin, message, d1) == executor.run_xcm(origin, message, d2),
    decreases message, 0nat,
{
    match message {
        XcmModel::WithdrawAsset { assets, effects } => {
            let (s1, r) = executor.withdraw_from(origin, assets, 0, HoldingModel::empty());
            if let Ok(holding) = r {
                lemma_orders_fit(s1, origin, holding, effects, 0, 0, d1, d2);
            }
        },
        XcmModel::ReserveAssetDeposited { assets, effects } => {
            let holding = HoldingModel::empty().subsume_all(assets);
            lemma_orders_fit(executor, origin, holding, effects, 0, 0, d1, d2);
        },
        XcmModel::ReceiveTeleportedAsset { assets, effects } => {
            let holding = HoldingModel::empty().subsume_all(assets);
            lemma_orders_fit(executor, origin, holding, effects, 0, 0, d1, d2);
        },
        _ => {},
    }
}

proof fn lemma_orders_fit<C: Config>(
    executor: XcmExecutor<C>,
    origin: LocationModel,
    holding: HoldingModel,
    effects: Seq<OrderModel>,
    i: int,
    surplus: Weight,
    d1: nat,
    d2: nat,
)
    requires
        d1 + orders_nesting(effects, i) <= MAX_RECURSION_LIMIT,
        d2 + orders_nesting(effects, i) <= MAX_RECURSION_LIMIT,
    ensures
        executor.run_orders(origin, holding, effects, i, surplus, d1) == executor.run_orders(
            origin,
            holding,
            effects,
            i,
            surplus,
            d2,
        ),
    decreases effects, effects.len() - i,
{
    if 0 <= i < effects.len() {
        lemma_order_fits(executor, origin, holding, effects[i], d1, d2);
        let (s1, h1, r) = executor.run_order(origin, holding, effects[i], d1);
        if let Ok(w) = r {
            lemma_orders_fit(
                s1,
                origin,
                h1,
                effects,
                i + 1,
                crate::executor::weight_add(surplus, w),
                d1,
                d2,
            );
        }
    }
}

proof fn lemma_order_fits<C: Config>(
    executor: XcmExecutor<C>,
    origin: LocationModel,
    holding: HoldingModel,
    order: OrderModel,
    d1: nat,
    d2: nat,
)
    requires
        d1 + order_nesting(order) <= MAX_RECURSION_LIMIT,
        d2 + order_nesting(order) <= MAX_RECURSION_LIMIT,
    ensures
        executor.run_order(origin, holding, order, d1) == executor.run_order(
            origin,
            holding,
            order,
            d2,
        ),
    decreases order, 0nat,
{
    match order {
        OrderModel::BuyExecution { fees, weight, debt, halt_on_error, xcm } => {
            if let Some(needed) = executor.programs_weighed(xcm, 0, 0) {
                let owed = crate::executor::lesser_weight(needed, weight) + debt;
                if owed <= Weight::MAX {
                    if let Some((rest, payment)) = holding.try_take(
                        crate::multiasset::FilterModel::Definite(seq![fees]),
                    ) {
                        let (trader, unspent, r) = executor.trader.bought(owed as Weight, payment);
                        let s1 = XcmExecutor { trader, ..executor };
                        if r.is_ok() {
                            lemma_programs_fit(
                                s1,
                                origin,
                                xcm,
                                0,
                                0,
                                halt_on_error,
                                d1 + 1,
                                d2 + 1,
                            );
                        }
                    }
                }
            }
        },
        _ => {},
    }
}

proof fn lemma_programs_fit<C: Config>(
    executor: XcmExecutor<C>,
    origin: LocationModel,
    messages: Seq<XcmModel>,
    i: int,
    surplus: Weight,
    halt: bool,
    d1: nat,
    d2: nat,
)
    requires
        i < messages.len() ==> d1 + programs_nesting(messages, i) <= MAX_RECURSION_LIMIT + 1,
        i < messages.len() ==> d2 + programs_nesting(messages, i) <= MAX_RECURSION_LIMIT + 1,
    ensures
        executor.run_nested(origin, messages, i, surplus, halt, d1) == executor.run_nested(
            origin,
            messages,
            i,
            surplus,
            halt,
            d2,
        ),
    decreases messages, messages.len() - i,
{
    if 0 <= i < messages.len() {
        law_limit_spares_what_fits(executor, origin, messages[i], d1, d2);
        let (s1, r) = executor.run_xcm(origin, messages[i], d1);
        match r {
            Ok(w) => {
                lemma_programs_fit(
                    s1,
                    origin,
                    messages,
                    i + 1,
                    crate::executor::weight_add(surplus, w),
                    halt,
                    d1,
                    d2,
                );
            },
            Err(e) => {
                if !halt {
                    lemma_programs_fit(s1, origin, messages, i + 1, surplus, halt, d1, d2);
                }
            },
        }
    }
}

/// A message that is refused has no effect: whenever the outcome is
/// `Outcome::Error`, be it for the weight, for the barrier or because the
/// bytes are no message, the executor, and with it the ledger and the
/// router behind it, is as it was.
pub proof fn law_refusal_has_no_effect<C: Config>(
    executor: XcmExecutor<C>,
    origin: LocationModel,
    message: XcmModel,
    input: Seq<u8>,
    weight_limit: Weight,
)
    ensures
        executor.executed(origin, message, weight_limit).1 is Error ==> executor.executed(
            origin,
            message,
            weight_limit,
        ).0 == executor,
        executor.executed_encoded(origin, input, weight_limit).1 is Error
            ==> executor.executed_encoded(origin, input, weight_limit).0 == executor,
{
}

/// The weight that an outcome reports never exceeds the limit under which
/// the message was executed.
pub proof fn law_weight_stays_within_limit<C: Config>(
    executor: XcmExecutor<C>,
    origin: LocationModel,
    message: XcmModel,
    weight_limit: Weight,
)
    ensures
        match executor.executed(origin, message, weight_limit).1 {
            Outcome::Complete(w) => w <= weight_limit,
            Outcome::Incomplete(w, _) => w <= weight_limit,
            Outcome::Error(_) => true,
        },
{
}

} // verus!
