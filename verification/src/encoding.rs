//! The wire encoding of messages and orders.

use crate::codec::{
    enc_asset, enc_asset_list, enc_bytes, enc_filter, enc_location, extend, parse_asset,
    parse_asset_list, parse_bytes, parse_compact_max, parse_filter, parse_location,
};
use crate::codec::{
    lemma_asset_complete, lemma_asset_list_complete, lemma_asset_list_sound, lemma_asset_sound,
    lemma_bytes_complete, lemma_bytes_sound, lemma_filter_complete, lemma_filter_sound,
    lemma_location_complete, lemma_location_sound,
};
use crate::wire::{
    lemma_compact_shape, lemma_parse_compact_complete, lemma_parse_compact_sound,
    lemma_u32_complete, lemma_u32_sound, lemma_u64_complete, lemma_u64_sound,
};
use crate::codec::{
    put_asset, put_asset_list, put_bytes, put_filter, put_location, take_asset, take_asset_list,
    take_bytes, take_compact_max, take_filter, take_location,
};
use crate::message::{order_models, DoubleEncoded, OriginKind, Response, ResponseModel, Xcm, XcmModel};
use crate::location::MultiLocation;
use crate::multiasset::{MultiAsset, MultiAssetFilter};
use crate::order::{xcm_models, Order, OrderModel};
use crate::wire::{
    compact, enc_bool, le_bytes, parse_bool, parse_compact, parse_u32, parse_u64, put_bool,
    put_compact, put_le, take_bool, take_compact, take_u32, take_u64,
};
use vstd::prelude::*;

verus! {

/// The encoding of a capacity.
pub open spec fn enc_origin_kind(k: OriginKind) -> Seq<u8> {
    match k {
        OriginKind::Native => seq![0u8],
        OriginKind::SovereignAccount => seq![1u8],
        OriginKind::Superuser => seq![2u8],
        OriginKind::Xcm => seq![3u8],
    }
}

/// Reading a capacity.
pub open spec fn parse_origin_kind(s: Seq<u8>) -> Option<(OriginKind, int)> {
    if s.len() == 0 {
        None
    } else if s[0] == 0 {
        Some((OriginKind::Native, 1))
    } else if s[0] == 1 {
        Some((OriginKind::SovereignAccount, 1))
    } else if s[0] == 2 {
        Some((OriginKind::Superuser, 1))
    } else if s[0] == 3 {
        Some((OriginKind::Xcm, 1))
    } else {
        None
    }
}

/// The encoding of an answer.
pub open spec fn enc_response(r: ResponseModel) -> Seq<u8> {
    match r {
        ResponseModel::Assets(assets) => seq![0u8] + enc_asset_list(assets),
    }
}

/// Reading an answer.
pub open spec fn parse_response(s: Seq<u8>) -> Option<(ResponseModel, int)> {
    if s.len() == 0 {
        None
    } else if s[0] == 0 {
        match parse_asset_list(s.skip(1)) {
            Some((assets, n)) => Some((ResponseModel::Assets(assets), 1 + n)),
            None => None,
        }
    } else {
        None
    }
}

/// The encoding of an order: the number of its variant, one byte, and its
/// fields in the order in which they are declared. `max_assets`, `weight`
/// and `debt` are written in four and eight bytes, `query_id` compact.
pub open spec fn enc_order(o: OrderModel) -> Seq<u8>
    decreases o, 0nat,
{
    match o {
        OrderModel::Noop => seq![0u8],
        OrderModel::DepositAsset { assets, max_assets, beneficiary } => seq![1u8] + enc_filter(
            assets,
        ) + le_bytes(max_assets as nat, 4) + enc_location(beneficiary),
        OrderModel::DepositReserveAsset { assets, max_assets, dest, effects } => seq![2u8]
            + enc_filter(assets) + le_bytes(max_assets as nat, 4) + enc_location(dest)
            + enc_order_list(effects),
        OrderModel::ExchangeAsset { give, receive } => seq![3u8] + enc_filter(give)
            + enc_asset_list(receive),
        OrderModel::InitiateReserveWithdraw { assets, reserve, effects } => seq![4u8] + enc_filter(
            assets,
        ) + enc_location(reserve) + enc_order_list(effects),
        OrderModel::InitiateTeleport { assets, dest, effects } => seq![5u8] + enc_filter(assets)
            + enc_location(dest) + enc_order_list(effects),
        OrderModel::QueryHolding { query_id, dest, assets } => seq![6u8] + compact(query_id as nat)
            + enc_location(dest) + enc_filter(assets),
        OrderModel::BuyExecution { fees, weight, debt, halt_on_error, xcm } => seq![7u8]
            + enc_asset(fees) + le_bytes(weight as nat, 8) + le_bytes(debt as nat, 8) + enc_bool(
            halt_on_error,
        ) + enc_xcm_list(xcm),
    }
}

/// The encoding of a list of orders: its length, compact, and the orders.
pub open spec fn enc_order_list(items: Seq<OrderModel>) -> Seq<u8>
    decreases items, 1nat,
{
    compact(items.len()) + enc_orders(items)
}

/// The encodings of the orders of a list, one after the other.
pub open spec fn enc_orders(items: Seq<OrderModel>) -> Seq<u8>
    decreases items, 0nat,
{
    if items.len() == 0 {
        Seq::empty()
    } else {
        enc_order(items[0]) + enc_orders(items.subrange(1, items.len() as int))
    }
}

/// The encoding of a message: the number of its variant, one byte, and its
/// fields in the order in which they are declared. `require_weight_at_most`
/// is written in eight bytes, `query_id` compact, and a call as the string
/// of its bytes.
pub open spec fn enc_xcm(m: XcmModel) -> Seq<u8>
    decreases m, 0nat,
{
    match m {
        XcmModel::WithdrawAsset { assets, effects } => seq![0u8] + enc_asset_list(assets)
            + enc_order_list(effects),
        XcmModel::ReserveAssetDeposited { assets, effects } => seq![1u8] + enc_asset_list(assets)
            + enc_order_list(effects),
        XcmModel::ReceiveTeleportedAsset { assets, effects } => seq![2u8] + enc_asset_list(assets)
            + enc_order_list(effects),
        XcmModel::QueryResponse { query_id, response } => seq![3u8] + compact(query_id as nat)
            + enc_response(response),
        XcmModel::TransferAsset { assets, beneficiary } => seq![4u8] + enc_asset_list(assets)
            + enc_location(beneficiary),
        XcmModel::TransferReserveAsset { assets, dest, effects } => seq![5u8] + enc_asset_list(
            assets,
        ) + enc_location(dest) + enc_order_list(effects),
        XcmModel::Transact { origin_type, require_weight_at_most, call } => seq![6u8]
            + enc_origin_kind(origin_type) + le_bytes(require_weight_at_most as nat, 8)
            + enc_bytes(call),
    }
}

/// The encoding of a list of messages: its length, compact, and the
/// messages.
pub open spec fn enc_xcm_list(items: Seq<XcmModel>) -> Seq<u8>
    decreases items, 1nat,
{
    compact(items.len()) + enc_xcms(items)
}

/// The encodings of the messages of a list, one after the other.
pub open spec fn enc_xcms(items: Seq<XcmModel>) -> Seq<u8>
    decreases items, 0nat,
{
    if items.len() == 0 {
        Seq::empty()
    } else {
        enc_xcm(items[0]) + enc_xcms(items.subrange(1, items.len() as int))
    }
}

/// Reading a list of orders at the place `q` of `s`, which must lie behind
/// the first byte.
pub open spec fn parse_order_list_at(s: Seq<u8>, q: int) -> Option<(Seq<OrderModel>, int)>
    decreases s.len(), 0nat,
{
    if 0 < q <= s.len() {
        match parse_compact(s.skip(q)) {
            Some((count, n)) => if 0 < n <= s.len() - q {
                extend(Seq::empty(), n, parse_orders(s.skip(q + n), count as nat))
            } else {
                None
            },
            None => None,
        }
    } else {
        None
    }
}

/// Reading `count` orders.
pub open spec fn parse_orders(s: Seq<u8>, count: nat) -> Option<(Seq<OrderModel>, int)>
    decreases s.len(), 2 + count,
{
    if count == 0 {
        Some((Seq::empty(), 0))
    } else {
        match parse_order(s) {
            Some((o, n)) => if 0 < n <= s.len() {
                extend(seq![o], n, parse_orders(s.skip(n), (count - 1) as nat))
            } else {
                None
            },
            None => None,
        }
    }
}

/// Reading a list of messages at the place `q` of `s`, which must lie
/// behind the first byte.
pub open spec fn parse_xcm_list_at(s: Seq<u8>, q: int) -> Option<(Seq<XcmModel>, int)>
    decreases s.len(), 0nat,
{
    if 0 < q <= s.len() {
        match parse_compact(s.skip(q)) {
            Some((count, n)) => if 0 < n <= s.len() - q {
                extend(Seq::empty(), n, parse_xcms(s.skip(q + n), count as nat))
            } else {
                None
            },
            None => None,
        }
    } else {
        None
    }
}

/// Reading `count` messages.
pub open spec fn parse_xcms(s: Seq<u8>, count: nat) -> Option<(Seq<XcmModel>, int)>
    decreases s.len(), 2 + count,
{
    if count == 0 {
        Some((Seq::empty(), 0))
    } else {
        match parse_xcm(s) {
            Some((m, n)) => if 0 < n <= s.len() {
                extend(seq![m], n, parse_xcms(s.skip(n), (count - 1) as nat))
            } else {
                None
            },
            None => None,
        }
    }
}

/// Reading an order.
pub open spec fn parse_order(s: Seq<u8>) -> Option<(OrderModel, int)>
    decreases s.len(), 1nat,
{
    if s.len() == 0 {
        None
    } else if s[0] == 0 {
        Some((OrderModel::Noop, 1))
    } else if s[0] == 1 {
        match parse_filter(s.skip(1)) {
            Some((assets, a)) => match parse_u32(s.skip(1 + a)) {
                Some((max_assets, b)) => match parse_location(s.skip(1 + a + b)) {
                    Some((beneficiary, c)) => Some(
                        (OrderModel::DepositAsset { assets, max_assets, beneficiary }, 1 + a + b + c),
                    ),
                    None => None,
                },
                None => None,
            },
            None => None,
        }
    } else if s[0] == 2 {
        match parse_filter(s.skip(1)) {
            Some((assets, a)) => match parse_u32(s.skip(1 + a)) {
                Some((max_assets, b)) => match parse_location(s.skip(1 + a + b)) {
                    Some((dest, c)) => match parse_order_list_at(s, 1 + a + b + c) {
                        Some((effects, d)) => Some(
                            (
                                OrderModel::DepositReserveAsset { assets, max_assets, dest, effects },
                                1 + a + b + c + d,
                            ),
                        ),
                        None => None,
                    },
                    None => None,
                },
                None => None,
            },
            None => None,
        }
    } else if s[0] == 3 {
        match parse_filter(s.skip(1)) {
            Some((give, a)) => match parse_asset_list(s.skip(1 + a)) {
                Some((receive, b)) => Some((OrderModel::ExchangeAsset { give, receive }, 1 + a + b)),
                None => None,
            },
            None => None,
        }
    } else if s[0] == 4 {
        match parse_filter(s.skip(1)) {
            Some((assets, a)) => match parse_location(s.skip(1 + a)) {
                Some((reserve, b)) => match parse_order_list_at(s, 1 + a + b) {
                    Some((effects, c)) => Some(
                        (
                            OrderModel::InitiateReserveWithdraw { assets, reserve, effects },
                            1 + a + b + c,
                        ),
                    ),
                    None => None,
                },
                None => None,
            },
            None => None,
        }
    } else if s[0] == 5 {
        match parse_filter(s.skip(1)) {
            Some((assets, a)) => match parse_location(s.skip(1 + a)) {
                Some((dest, b)) => match parse_order_list_at(s, 1 + a + b) {
                    Some((effects, c)) => Some(
                        (OrderModel::InitiateTeleport { assets, dest, effects }, 1 + a + b + c),
                    ),
                    None => None,
                },
                None => None,
            },
            None => None,
        }
    } else if s[0] == 6 {
        match parse_compact_max(s.skip(1), u64::MAX as u128) {
            Some((query_id, a)) => match parse_location(s.skip(1 + a)) {
                Some((dest, b)) => match parse_filter(s.skip(1 + a + b)) {
                    Some((assets, c)) => Some(
                        (
                            OrderModel::QueryHolding { query_id: query_id as u64, dest, assets },
                            1 + a + b + c,
                        ),
                    ),
                    None => None,
                },
                None => None,
            },
            None => None,
        }
    } else if s[0] == 7 {
        match parse_asset(s.skip(1)) {
            Some((fees, a)) => match parse_u64(s.skip(1 + a)) {
                Some((weight, b)) => match parse_u64(s.skip(1 + a + b)) {
                    Some((debt, c)) => match parse_bool(s.skip(1 + a + b + c)) {
                        Some((halt_on_error, d)) => match parse_xcm_list_at(s, 1 + a + b + c + d) {
                            Some((xcm, e)) => Some(
                                (
                                    OrderModel::BuyExecution {
                                        fees,
                                        weight,
                                        debt,
                                        halt_on_error,
                                        xcm,
                                    },
                                    1 + a + b + c + d + e,
                                ),
                            ),
                            None => None,
                        },
                        None => None,
                    },
                    None => None,
                },
                None => None,
            },
            None => None,
        }
    } else {
        None
    }
}

/// Reading a message.
pub open spec fn parse_xcm(s: Seq<u8>) -> Option<(XcmModel, int)>
    decreases s.len(), 1nat,
{
    if s.len() == 0 {
        None
    } else if s[0] == 0 || s[0] == 1 || s[0] == 2 {
        match parse_asset_list(s.skip(1)) {
            Some((assets, a)) => match parse_order_list_at(s, 1 + a) {
                Some((effects, b)) => Some(
                    (
                        if s[0] == 0 {
                            XcmModel::WithdrawAsset { assets, effects }
                        } else if s[0] == 1 {
                            XcmModel::ReserveAssetDeposited { assets, effects }
                        } else {
                            XcmModel::ReceiveTeleportedAsset { assets, effects }
                        },
                        1 + a + b,
                    ),
                ),
                None => None,
            },
            None => None,
        }
    } else if s[0] == 3 {
        match parse_compact_max(s.skip(1), u64::MAX as u128) {
            Some((query_id, a)) => match parse_response(s.skip(1 + a)) {
                Some((response, b)) => Some(
                    (XcmModel::QueryResponse { query_id: query_id as u64, response }, 1 + a + b),
                ),
                None => None,
            },
            None => None,
        }
    } else if s[0] == 4 {
        match parse_asset_list(s.skip(1)) {
            Some((assets, a)) => match parse_location(s.skip(1 + a)) {
                Some((beneficiary, b)) => Some(
                    (XcmModel::TransferAsset { assets, beneficiary }, 1 + a + b),
                ),
                None => None,
            },
            None => None,
        }
    } else if s[0] == 5 {
        match parse_asset_list(s.skip(1)) {
            Some((assets, a)) => match parse_location(s.skip(1 + a)) {
                Some((dest, b)) => match parse_order_list_at(s, 1 + a + b) {
                    Some((effects, c)) => Some(
                        (XcmModel::TransferReserveAsset { assets, dest, effects }, 1 + a + b + c),
                    ),
                    None => None,
                },
                None => None,
            },
            None => None,
        }
    } else if s[0] == 6 {
        match parse_origin_kind(s.skip(1)) {
            Some((origin_type, a)) => match parse_u64(s.skip(1 + a)) {
                Some((require_weight_at_most, b)) => match parse_bytes(s.skip(1 + a + b)) {
                    Some((call, c)) => Some(
                        (
                            XcmModel::Transact { origin_type, require_weight_at_most, call },
                            1 + a + b + c,
                        ),
                    ),
                    None => None,
                },
                None => None,
            },
            None => None,
        }
    } else {
        None
    }
}

/// How deeply lists of orders and messages may be nested inside a value
/// that is decoded.
pub const MAX_XCM_DECODE_DEPTH: u32 = 32;

/// The larger of two numbers.
pub open spec fn deeper(a: nat, b: nat) -> nat {
    if a >= b {
        a
    } else {
        b
    }
}

/// How deeply lists of orders and messages are nested inside `order`: zero
/// if it holds no such list, and else one more than the deepest item of its
/// list.
pub open spec fn order_depth(order: OrderModel) -> nat
    decreases order, 0nat,
{
    match order {
        OrderModel::DepositReserveAsset { assets, max_assets, dest, effects } => 1 + orders_depth(
            effects,
            0,
        ),
        OrderModel::InitiateReserveWithdraw { assets, reserve, effects } => 1 + orders_depth(
            effects,
            0,
        ),
        OrderModel::InitiateTeleport { assets, dest, effects } => 1 + orders_depth(effects, 0),
        OrderModel::BuyExecution { fees, weight, debt, halt_on_error, xcm } => 1 + xcms_depth(xcm, 0),
        _ => 0,
    }
}

/// The depth of the deepest of `items[i..]`.
pub open spec fn orders_depth(items: Seq<OrderModel>, i: int) -> nat
    decreases items, items.len() - i,
{
    if i < 0 || i >= items.len() {
        0
    } else {
        deeper(order_depth(items[i]), orders_depth(items, i + 1))
    }
}

/// How deeply lists of orders and messages are nested inside `message`.
pub open spec fn xcm_depth(message: XcmModel) -> nat
    decreases message, 0nat,
{
    match message {
        XcmModel::WithdrawAsset { assets, effects } => 1 + orders_depth(effects, 0),
        XcmModel::ReserveAssetDeposited { assets, effects } => 1 + orders_depth(effects, 0),
        XcmModel::ReceiveTeleportedAsset { assets, effects } => 1 + orders_depth(effects, 0),
        XcmModel::TransferReserveAsset { assets, dest, effects } => 1 + orders_depth(effects, 0),
        _ => 0,
    }
}

/// The depth of the deepest of `items[i..]`.
pub open spec fn xcms_depth(items: Seq<XcmModel>, i: int) -> nat
    decreases items, items.len() - i,
{
    if i < 0 || i >= items.len() {
        0
    } else {
        deeper(xcm_depth(items[i]), xcms_depth(items, i + 1))
    }
}

/// No order of a list is deeper than the list.
pub proof fn lemma_orders_depth_bound(items: Seq<OrderModel>, i: int, j: int)
    requires
        0 <= i <= j < items.len(),
    ensures
        order_depth(items[j]) <= orders_depth(items, i),
    decreases j - i,
{
    if i < j {
        lemma_orders_depth_bound(items, i + 1, j);
    }
}

/// A list whose orders are all shallower than `bound` is shallower than
/// `bound`.
pub proof fn lemma_orders_depth_least(items: Seq<OrderModel>, i: int, bound: nat)
    requires
        0 <= i,
        bound >= 1,
        forall|j: int| i <= j < items.len() ==> order_depth(#[trigger] items[j]) < bound,
    ensures
        orders_depth(items, i) < bound,
    decreases items.len() - i,
{
    if i < items.len() {
        lemma_orders_depth_least(items, i + 1, bound);
    }
}

/// No message of a list is deeper than the list.
pub proof fn lemma_xcms_depth_bound(items: Seq<XcmModel>, i: int, j: int)
    requires
        0 <= i <= j < items.len(),
    ensures
        xcm_depth(items[j]) <= xcms_depth(items, i),
    decreases j - i,
{
    if i < j {
        lemma_xcms_depth_bound(items, i + 1, j);
    }
}

/// A list whose messages are all shallower than `bound` is shallower than
/// `bound`.
pub proof fn lemma_xcms_depth_least(items: Seq<XcmModel>, i: int, bound: nat)
    requires
        0 <= i,
        bound >= 1,
        forall|j: int| i <= j < items.len() ==> xcm_depth(#[trigger] items[j]) < bound,
    ensures
        xcms_depth(items, i) < bound,
    decreases items.len() - i,
{
    if i < items.len() {
        lemma_xcms_depth_least(items, i + 1, bound);
    }
}

/// Appends the encoding of a capacity.
pub fn put_origin_kind(out: &mut Vec<u8>, k: OriginKind)
    ensures
        final(out)@ == old(out)@ + enc_origin_kind(k),
{
    match k {
        OriginKind::Native => out.push(0),
        OriginKind::SovereignAccount => out.push(1),
        OriginKind::Superuser => out.push(2),
        OriginKind::Xcm => out.push(3),
    }
    assert(out@ =~= old(out)@ + enc_origin_kind(k));
}

/// Reads a capacity.
pub fn take_origin_kind(input: &[u8], pos: usize) -> (r: Option<(OriginKind, usize)>)
    requires
        pos <= input@.len(),
    ensures
        match r {
            Some((value, next)) => pos < next <= input@.len() && parse_origin_kind(
                input@.skip(pos as int),
            ) == Some((value, next - pos)),
            None => parse_origin_kind(input@.skip(pos as int)).is_none(),
        },
{
    if pos >= input.len() {
        return None;
    }
    let tag = input[pos];
    if tag == 0 {
        Some((OriginKind::Native, pos + 1))
    } else if tag == 1 {
        Some((OriginKind::SovereignAccount, pos + 1))
    } else if tag == 2 {
        Some((OriginKind::Superuser, pos + 1))
    } else if tag == 3 {
        Some((OriginKind::Xcm, pos + 1))
    } else {
        None
    }
}

/// Appends the encoding of an answer.
pub fn put_response(out: &mut Vec<u8>, r: &Response)
    ensures
        final(out)@ == old(out)@ + enc_response(r@),
{
    match r {
        Response::Assets(assets) => {
            out.push(0);
            put_asset_list(out, assets);
        },
    }
    assert(out@ =~= old(out)@ + enc_response(r@));
}

/// Reads an answer.
pub fn take_response(input: &[u8], pos: usize) -> (r: Option<(Response, usize)>)
    requires
        pos <= input@.len(),
    ensures
        match r {
            Some((value, next)) => pos < next <= input@.len() && parse_response(
                input@.skip(pos as int),
            ) == Some((value@, next - pos)),
            None => parse_response(input@.skip(pos as int)).is_none(),
        },
{
    if pos >= input.len() {
        return None;
    }
    let tag = input[pos];
    assert(input@.skip(pos as int).skip(1) =~= input@.skip(pos + 1));
    if tag == 0 {
        match take_asset_list(input, pos + 1) {
            Some((assets, next)) => Some((Response::Assets(assets), next)),
            None => None,
        }
    } else {
        None
    }
}

/// Appends the encoding of a list of orders.
pub fn put_order_list<Call>(out: &mut Vec<u8>, list: &Vec<Order<Call>>)
    ensures
        final(out)@ == old(out)@ + enc_order_list(order_models(list@)),
    decreases list,
{
    put_compact(out, list.len() as u128);
    let ghost models = order_models(list@);
    let ghost target = out@ + enc_orders(models);
    let mut i: usize = 0;
    assert(models.skip(0) =~= models);
    while i < list.len()
        invariant
            i <= list@.len(),
            models == order_models(list@),
            out@ + enc_orders(models.skip(i as int)) == target,
        decreases list.len() - i,
    {
        let ghost before = out@;
        assert(decreases_to!(list => list@[i as int]));
        put_order(out, &list[i]);
        proof {
            let here = models.skip(i as int);
            assert(here.subrange(1, here.len() as int) =~= models.skip(i + 1));
            assert(here[0] == list@[i as int]@);
            assert(before + enc_orders(here) =~= before + enc_order(here[0]) + enc_orders(
                models.skip(i + 1),
            ));
        }
        i += 1;
    }
    assert(out@ + Seq::<u8>::empty() =~= out@);
    assert(target =~= old(out)@ + enc_order_list(models));
}

/// Appends the encoding of a list of messages.
pub fn put_xcm_list<Call>(out: &mut Vec<u8>, list: &Vec<Xcm<Call>>)
    ensures
        final(out)@ == old(out)@ + enc_xcm_list(xcm_models(list@)),
    decreases list,
{
    put_compact(out, list.len() as u128);
    let ghost models = xcm_models(list@);
    let ghost target = out@ + enc_xcms(models);
    let mut i: usize = 0;
    assert(models.skip(0) =~= models);
    while i < list.len()
        invariant
            i <= list@.len(),
            models == xcm_models(list@),
            out@ + enc_xcms(models.skip(i as int)) == target,
        decreases list.len() - i,
    {
        let ghost before = out@;
        assert(decreases_to!(list => list@[i as int]));
        put_xcm(out, &list[i]);
        proof {
            let here = models.skip(i as int);
            assert(here.subrange(1, here.len() as int) =~= models.skip(i + 1));
            assert(here[0] == list@[i as int]@);
            assert(before + enc_xcms(here) =~= before + enc_xcm(here[0]) + enc_xcms(
                models.skip(i + 1),
            ));
        }
        i += 1;
    }
    assert(out@ + Seq::<u8>::empty() =~= out@);
    assert(target =~= old(out)@ + enc_xcm_list(models));
}

/// Appends the encoding of an order.
pub fn put_order<Call>(out: &mut Vec<u8>, o: &Order<Call>)
    ensures
        final(out)@ == old(out)@ + enc_order(o@),
    decreases o,
{
    match o {
        Order::Noop => {
            out.push(0);
        },
        Order::DepositAsset { assets, max_assets, beneficiary } => {
            out.push(1);
            put_filter(out, assets);
            put_le(out, *max_assets as u64, 4);
            put_location(out, beneficiary);
        },
        Order::DepositReserveAsset { assets, max_assets, dest, effects } => {
            out.push(2);
            put_filter(out, assets);
            put_le(out, *max_assets as u64, 4);
            put_location(out, dest);
            put_order_list(out, effects);
        },
        Order::ExchangeAsset { give, receive } => {
            out.push(3);
            put_filter(out, give);
            put_asset_list(out, receive);
        },
        Order::InitiateReserveWithdraw { assets, reserve, effects } => {
            out.push(4);
            put_filter(out, assets);
            put_location(out, reserve);
            put_order_list(out, effects);
        },
        Order::InitiateTeleport { assets, dest, effects } => {
            out.push(5);
            put_filter(out, assets);
            put_location(out, dest);
            put_order_list(out, effects);
        },
        Order::QueryHolding { query_id, dest, assets } => {
            out.push(6);
            put_compact(out, *query_id as u128);
            put_location(out, dest);
            put_filter(out, assets);
        },
        Order::BuyExecution { fees, weight, debt, halt_on_error, xcm } => {
            out.push(7);
            put_asset(out, fees);
            put_le(out, *weight, 8);
            put_le(out, *debt, 8);
            put_bool(out, *halt_on_error);
            put_xcm_list(out, xcm);
        },
    }
    assert(out@ =~= old(out)@ + enc_order(o@));
}

/// Appends the encoding of a message.
pub fn put_xcm<Call>(out: &mut Vec<u8>, m: &Xcm<Call>)
    ensures
        final(out)@ == old(out)@ + enc_xcm(m@),
    decreases m,
{
    match m {
        Xcm::WithdrawAsset { assets, effects } => {
            out.push(0);
            put_asset_list(out, assets);
            put_order_list(out, effects);
        },
        Xcm::ReserveAssetDeposited { assets, effects } => {
            out.push(1);
            put_asset_list(out, assets);
            put_order_list(out, effects);
        },
        Xcm::ReceiveTeleportedAsset { assets, effects } => {
            out.push(2);
            put_asset_list(out, assets);
            put_order_list(out, effects);
        },
        Xcm::QueryResponse { query_id, response } => {
            out.push(3);
            put_compact(out, *query_id as u128);
            put_response(out, response);
        },
        Xcm::TransferAsset { assets, beneficiary } => {
            out.push(4);
            put_asset_list(out, assets);
            put_location(out, beneficiary);
        },
        Xcm::TransferReserveAsset { assets, dest, effects } => {
            out.push(5);
            put_asset_list(out, assets);
            put_location(out, dest);
            put_order_list(out, effects);
        },
        Xcm::Transact { origin_type, require_weight_at_most, call } => {
            out.push(6);
            put_origin_kind(out, *origin_type);
            put_le(out, *require_weight_at_most, 8);
            put_bytes(out, &call.encoded);
        },
    }
    assert(out@ =~= old(out)@ + enc_xcm(m@));
}

/// Reads a list of orders that begins at `start`, inside a value that
/// begins at `pos`.
fn take_order_list<Call>(input: &[u8], Ghost(pos): Ghost<int>, start: usize, budget: u32) -> (r: Option<
    (Vec<Order<Call>>, usize),
>)
    requires
        0 <= pos < start <= input@.len(),
    ensures
        match r {
            Some((value, next)) => start < next <= input@.len() && parse_order_list_at(
                input@.skip(pos),
                start - pos,
            ) == Some((order_models(value@), next - start)) && orders_depth(
                order_models(value@),
                0,
            ) < budget,
            None => parse_order_list_at(input@.skip(pos), start - pos) matches Some((items, _))
                ==> orders_depth(items, 0) >= budget,
        },
    decreases input@.len() - start, 0nat,
{
    if budget == 0 {
        return None;
    }
    let ghost s = input@.skip(pos);
    assert(s.skip(start - pos) =~= input@.skip(start as int));
    let (count, at1) = match take_compact(input, start) {
        Some(x) => x,
        None => {
            return None;
        },
    };
    assert(s.skip(start - pos + (at1 - start)) =~= input@.skip(at1 as int));
    let mut list: Vec<Order<Call>> = Vec::new();
    let mut cur: usize = at1;
    let mut i: u128 = 0;
    let ghost whole = parse_orders(input@.skip(at1 as int), count as nat);
    proof {
        assert(order_models(list@) =~= Seq::empty());
        if whole.is_some() {
            assert(Seq::<OrderModel>::empty() + whole.unwrap().0 =~= whole.unwrap().0);
        }
    }
    while i < count
        invariant
            i <= count,
            budget >= 1,
            forall|j: int|
                0 <= j < list@.len() ==> order_depth(#[trigger] order_models(list@)[j]) < budget,
            start < at1 <= cur <= input@.len(),
            whole == parse_orders(input@.skip(at1 as int), count as nat),
            parse_order_list_at(input@.skip(pos), start - pos) == extend(
                Seq::empty(),
                at1 - start,
                whole,
            ),
            extend(
                order_models(list@),
                cur - at1,
                parse_orders(input@.skip(cur as int), (count - i) as nat),
            ) == whole,
        decreases count - i,
    {
        let ghost here = input@.skip(cur as int);
        match take_order::<Call>(input, cur, budget - 1) {
            Some((o, next)) => {
                proof {
                    assert(here.skip(next - cur) =~= input@.skip(next as int));
                    let r = parse_orders(input@.skip(next as int), (count - i - 1) as nat);
                    assert(order_models(list@.push(o)) =~= order_models(list@).push(o@));
                    if r.is_some() {
                        assert(order_models(list@) + (seq![o@] + r.unwrap().0) =~= order_models(
                            list@,
                        ).push(o@) + r.unwrap().0);
                    }
                }
                list.push(o);
                cur = next;
            },
            None => {
                proof {
                    let e = parse_order(here);
                    if e.is_some() && whole.is_some() {
                        let (o, n) = e.unwrap();
                        let r = parse_orders(here.skip(n), (count - i - 1) as nat);
                        let items = whole.unwrap().0;
                        assert(items =~= order_models(list@) + (seq![o] + r.unwrap().0));
                        assert(items[list@.len() as int] == o);
                        lemma_orders_depth_bound(items, 0, list@.len() as int);
                    }
                }
                return None;
            },
        }
        i += 1;
    }
    proof {
        lemma_orders_depth_least(order_models(list@), 0, budget as nat);
        assert(order_models(list@) + Seq::<OrderModel>::empty() =~= order_models(list@));
        assert(Seq::<OrderModel>::empty() + order_models(list@) =~= order_models(list@));
    }
    Some((list, cur))
}

/// Reads a list of messages that begins at `start`, inside a value that
/// begins at `pos`.
fn take_xcm_list<Call>(input: &[u8], Ghost(pos): Ghost<int>, start: usize, budget: u32) -> (r: Option<
    (Vec<Xcm<Call>>, usize),
>)
    requires
        0 <= pos < start <= input@.len(),
    ensures
        match r {
            Some((value, next)) => start < next <= input@.len() && parse_xcm_list_at(
                input@.skip(pos),
                start - pos,
            ) == Some((xcm_models(value@), next - start)) && xcms_depth(
                xcm_models(value@),
                0,
            ) < budget,
            None => parse_xcm_list_at(input@.skip(pos), start - pos) matches Some((items, _))
                ==> xcms_depth(items, 0) >= budget,
        },
    decreases input@.len() - start, 0nat,
{
    if budget == 0 {
        return None;
    }
    let ghost s = input@.skip(pos);
    assert(s.skip(start - pos) =~= input@.skip(start as int));
    let (count, at1) = match take_compact(input, start) {
        Some(x) => x,
        None => {
            return None;
        },
    };
    assert(s.skip(start - pos + (at1 - start)) =~= input@.skip(at1 as int));
    let mut list: Vec<Xcm<Call>> = Vec::new();
    let mut cur: usize = at1;
    let mut i: u128 = 0;
    let ghost whole = parse_xcms(input@.skip(at1 as int), count as nat);
    proof {
        assert(xcm_models(list@) =~= Seq::empty());
        if whole.is_some() {
            assert(Seq::<XcmModel>::empty() + whole.unwrap().0 =~= whole.unwrap().0);
        }
    }
    while i < count
        invariant
            i <= count,
            budget >= 1,
            forall|j: int|
                0 <= j < list@.len() ==> xcm_depth(#[trigger] xcm_models(list@)[j]) < budget,
            start < at1 <= cur <= input@.len(),
            whole == parse_xcms(input@.skip(at1 as int), count as nat),
            parse_xcm_list_at(input@.skip(pos), start - pos) == extend(
                Seq::empty(),
                at1 - start,
                whole,
            ),
            extend(
                xcm_models(list@),
                cur - at1,
                parse_xcms(input@.skip(cur as int), (count - i) as nat),
            ) == whole,
        decreases count - i,
    {
        let ghost here = input@.skip(cur as int);
        match take_xcm::<Call>(input, cur, budget - 1) {
            Some((m, next)) => {
                proof {
                    assert(here.skip(next - cur) =~= input@.skip(next as int));
                    let r = parse_xcms(input@.skip(next as int), (count - i - 1) as nat);
                    assert(xcm_models(list@.push(m)) =~= xcm_models(list@).push(m@));
                    if r.is_some() {
                        assert(xcm_models(list@) + (seq![m@] + r.unwrap().0) =~= xcm_models(
                            list@,
                        ).push(m@) + r.unwrap().0);
                    }
                }
                list.push(m);
                cur = next;
            },
            None => {
                proof {
                    let e = parse_xcm(here);
                    if e.is_some() && whole.is_some() {
                        let (o, n) = e.unwrap();
                        let r = parse_xcms(here.skip(n), (count - i - 1) as nat);
                        let items = whole.unwrap().0;
                        assert(items =~= xcm_models(list@) + (seq![o] + r.unwrap().0));
                        assert(items[list@.len() as int] == o);
                        lemma_xcms_depth_bound(items, 0, list@.len() as int);
                    }
                }
                return None;
            },
        }
        i += 1;
    }
    proof {
        lemma_xcms_depth_least(xcm_models(list@), 0, budget as nat);
        assert(xcm_models(list@) + Seq::<XcmModel>::empty() =~= xcm_models(list@));
        assert(Seq::<XcmModel>::empty() + xcm_models(list@) =~= xcm_models(list@));
    }
    Some((list, cur))
}

fn take_noop<Call>(input: &[u8], pos: usize, budget: u32) -> (r: Option<(Order<Call>, usize)>)
    requires
        pos < input@.len(),
        input@[pos as int] == 0,
    ensures
        match r {
            Some((value, next)) => pos < next <= input@.len() && parse_order(
                input@.skip(pos as int),
            ) == Some((value@, next - pos)) && order_depth(value@) <= budget,
            None => parse_order(input@.skip(pos as int)) matches Some((m, _))
                ==> order_depth(m) > budget,
        },
    decreases input@.len() - pos, 0nat,
{
    let ghost s = input@.skip(pos as int);
    let tag = input[pos];
    let at0 = pos + 1;
    assert(s.skip(1) =~= input@.skip(at0 as int));
    Some((Order::Noop, at0))
}

fn take_deposit_asset<Call>(input: &[u8], pos: usize, budget: u32) -> (r: Option<(Order<Call>, usize)>)
    requires
        pos < input@.len(),
        input@[pos as int] == 1,
    ensures
        match r {
            Some((value, next)) => pos < next <= input@.len() && parse_order(
                input@.skip(pos as int),
            ) == Some((value@, next - pos)) && order_depth(value@) <= budget,
            None => parse_order(input@.skip(pos as int)) matches Some((m, _))
                ==> order_depth(m) > budget,
        },
    decreases input@.len() - pos, 0nat,
{
    let ghost s = input@.skip(pos as int);
    let tag = input[pos];
    let at0 = pos + 1;
    assert(s.skip(1) =~= input@.skip(at0 as int));
    let (assets, at1) = match take_filter(input, at0) {
        Some(x) => x,
        None => {
            return None;
        },
    };
    assert(s.skip(at1 - pos) =~= input@.skip(at1 as int));
    let (max_assets, at2) = match take_u32(input, at1) {
        Some(x) => x,
        None => {
            return None;
        },
    };
    assert(s.skip(at2 - pos) =~= input@.skip(at2 as int));
    let (beneficiary, at3) = match take_location(input, at2) {
        Some(x) => x,
        None => {
            return None;
        },
    };
    Some((Order::DepositAsset { assets, max_assets, beneficiary }, at3))
}

fn take_deposit_reserve_asset<Call>(
    input: &[u8],
    pos: usize,
    budget: u32,
) -> (r: Option<(Order<Call>, usize)>)
    requires
        pos < input@.len(),
        input@[pos as int] == 2,
    ensures
        match r {
            Some((value, next)) => pos < next <= input@.len() && parse_order(
                input@.skip(pos as int),
            ) == Some((value@, next - pos)) && order_depth(value@) <= budget,
            None => parse_order(input@.skip(pos as int)) matches Some((m, _))
                ==> order_depth(m) > budget,
        },
    decreases input@.len() - pos, 0nat,
{
    let ghost s = input@.skip(pos as int);
    let tag = input[pos];
    let at0 = pos + 1;
    assert(s.skip(1) =~= input@.skip(at0 as int));
    let (assets, at1) = match take_filter(input, at0) {
        Some(x) => x,
        None => {
            return None;
        },
    };
    assert(s.skip(at1 - pos) =~= input@.skip(at1 as int));
    let (max_assets, at2) = match take_u32(input, at1) {
        Some(x) => x,
        None => {
            return None;
        },
    };
    assert(s.skip(at2 - pos) =~= input@.skip(at2 as int));
    let (dest, at3) = match take_location(input, at2) {
        Some(x) => x,
        None => {
            return None;
        },
    };
    let (effects, at4) = match take_order_list::<()>(input, Ghost(pos as int), at3, budget) {
        Some(x) => x,
        None => {
            return None;
        },
    };
    Some((Order::DepositReserveAsset { assets, max_assets, dest, effects }, at4))
}

fn take_exchange_asset<Call>(input: &[u8], pos: usize, budget: u32) -> (r: Option<(Order<Call>, usize)>)
    requires
        pos < input@.len(),
        input@[pos as int] == 3,
    ensures
        match r {
            Some((value, next)) => pos < next <= input@.len() && parse_order(
                input@.skip(pos as int),
            ) == Some((value@, next - pos)) && order_depth(value@) <= budget,
            None => parse_order(input@.skip(pos as int)) matches Some((m, _))
                ==> order_depth(m) > budget,
        },
    decreases input@.len() - pos, 0nat,
{
    let ghost s = input@.skip(pos as int);
    let tag = input[pos];
    let at0 = pos + 1;
    assert(s.skip(1) =~= input@.skip(at0 as int));
    let (give, at1) = match take_filter(input, at0) {
        Some(x) => x,
        None => {
            return None;
        },
    };
    assert(s.skip(at1 - pos) =~= input@.skip(at1 as int));
    let (receive, at2) = match take_asset_list(input, at1) {
        Some(x) => x,
        None => {
            return None;
        },
    };
    Some((Order::ExchangeAsset { give, receive }, at2))
}

fn take_initiate_reserve_withdraw<Call>(
    input: &[u8],
    pos: usize,
    budget: u32,
) -> (r: Option<(Order<Call>, usize)>)
    requires
        pos < input@.len(),
        input@[pos as int] == 4,
    ensures
        match r {
            Some((value, next)) => pos < next <= input@.len() && parse_order(
                input@.skip(pos as int),
            ) == Some((value@, next - pos)) && order_depth(value@) <= budget,
            None => parse_order(input@.skip(pos as int)) matches Some((m, _))
                ==> order_depth(m) > budget,
        },
    decreases input@.len() - pos, 0nat,
{
    let ghost s = input@.skip(pos as int);
    let tag = input[pos];
    let at0 = pos + 1;
    assert(s.skip(1) =~= input@.skip(at0 as int));
    let (assets, at1) = match take_filter(input, at0) {
        Some(x) => x,
        None => {
            return None;
        },
    };
    assert(s.skip(at1 - pos) =~= input@.skip(at1 as int));
    let (reserve, at2) = match take_location(input, at1) {
        Some(x) => x,
        None => {
            return None;
        },
    };
    let (effects, at3) = match take_order_list::<()>(input, Ghost(pos as int), at2, budget) {
        Some(x) => x,
        None => {
            return None;
        },
    };
    Some((Order::InitiateReserveWithdraw { assets, reserve, effects }, at3))
}

fn take_initiate_teleport<Call>(
    input: &[u8],
    pos: usize,
    budget: u32,
) -> (r: Option<(Order<Call>, usize)>)
    requires
        pos < input@.len(),
        input@[pos as int] == 5,
    ensures
        match r {
            Some((value, next)) => pos < next <= input@.len() && parse_order(
                input@.skip(pos as int),
            ) == Some((value@, next - pos)) && order_depth(value@) <= budget,
            None => parse_order(input@.skip(pos as int)) matches Some((m, _))
                ==> order_depth(m) > budget,
        },
    decreases input@.len() - pos, 0nat,
{
    let ghost s = input@.skip(pos as int);
    let tag = input[pos];
    let at0 = pos + 1;
    assert(s.skip(1) =~= input@.skip(at0 as int));
    let (assets, at1) = match take_filter(input, at0) {
        Some(x) => x,
        None => {
            return None;
        },
    };
    assert(s.skip(at1 - pos) =~= input@.skip(at1 as int));
    let (dest, at2) = match take_location(input, at1) {
        Some(x) => x,
        None => {
            return None;
        },
    };
    let (effects, at3) = match take_order_list::<()>(input, Ghost(pos as int), at2, budget) {
        Some(x) => x,
        None => {
            return None;
        },
    };
    Some((Order::InitiateTeleport { assets, dest, effects }, at3))
}

fn take_query_holding<Call>(input: &[u8], pos: usize, budget: u32) -> (r: Option<(Order<Call>, usize)>)
    requires
        pos < input@.len(),
        input@[pos as int] == 6,
    ensures
        match r {
            Some((value, next)) => pos < next <= input@.len() && parse_order(
                input@.skip(pos as int),
            ) == Some((value@, next - pos)) && order_depth(value@) <= budget,
            None => parse_order(input@.skip(pos as int)) matches Some((m, _))
                ==> order_depth(m) > budget,
        },
    decreases input@.len() - pos, 0nat,
{
    let ghost s = input@.skip(pos as int);
    let tag = input[pos];
    let at0 = pos + 1;
    assert(s.skip(1) =~= input@.skip(at0 as int));
    let (query_id, at1) = match take_compact_max(input, at0, u64::MAX as u128) {
        Some(x) => x,
        None => {
            return None;
        },
    };
    assert(s.skip(at1 - pos) =~= input@.skip(at1 as int));
    let (dest, at2) = match take_location(input, at1) {
        Some(x) => x,
        None => {
            return None;
        },
    };
    assert(s.skip(at2 - pos) =~= input@.skip(at2 as int));
    let (assets, at3) = match take_filter(input, at2) {
        Some(x) => x,
        None => {
            return None;
        },
    };
    Some((Order::QueryHolding { query_id: query_id as u64, dest, assets }, at3))
}

fn take_buy_execution<Call>(input: &[u8], pos: usize, budget: u32) -> (r: Option<(Order<Call>, usize)>)
    requires
        pos < input@.len(),
        input@[pos as int] == 7,
    ensures
        match r {
            Some((value, next)) => pos < next <= input@.len() && parse_order(
                input@.skip(pos as int),
            ) == Some((value@, next - pos)) && order_depth(value@) <= budget,
            None => parse_order(input@.skip(pos as int)) matches Some((m, _))
                ==> order_depth(m) > budget,
        },
    decreases input@.len() - pos, 0nat,
{
    let ghost s = input@.skip(pos as int);
    let tag = input[pos];
    let at0 = pos + 1;
    assert(s.skip(1) =~= input@.skip(at0 as int));
    let (fees, at1) = match take_asset(input, at0) {
        Some(x) => x,
        None => {
            return None;
        },
    };
    assert(s.skip(at1 - pos) =~= input@.skip(at1 as int));
    let (weight, at2) = match take_u64(input, at1) {
        Some(x) => x,
        None => {
            return None;
        },
    };
    assert(s.skip(at2 - pos) =~= input@.skip(at2 as int));
    let (debt, at3) = match take_u64(input, at2) {
        Some(x) => x,
        None => {
            return None;
        },
    };
    assert(s.skip(at3 - pos) =~= input@.skip(at3 as int));
    let (halt_on_error, at4) = match take_bool(input, at3) {
        Some(x) => x,
        None => {
            return None;
        },
    };
    let (xcm, at5) = match take_xcm_list::<Call>(input, Ghost(pos as int), at4, budget) {
        Some(x) => x,
        None => {
            return None;
        },
    };
    Some((Order::BuyExecution { fees, weight, debt, halt_on_error, xcm }, at5))
}

/// Reads an order.
pub fn take_order<Call>(input: &[u8], pos: usize, budget: u32) -> (r: Option<(Order<Call>, usize)>)
    requires
        pos <= input@.len(),
    ensures
        match r {
            Some((value, next)) => pos < next <= input@.len() && parse_order(
                input@.skip(pos as int),
            ) == Some((value@, next - pos)) && order_depth(value@) <= budget,
            None => parse_order(input@.skip(pos as int)) matches Some((m, _))
                ==> order_depth(m) > budget,
        },
    decreases input@.len() - pos, 1nat,
{
    if pos >= input.len() {
        return None;
    }
    let tag = input[pos];
    if tag == 0 {
        take_noop(input, pos, budget)
    } else if tag == 1 {
        take_deposit_asset(input, pos, budget)
    } else if tag == 2 {
        take_deposit_reserve_asset(input, pos, budget)
    } else if tag == 3 {
        take_exchange_asset(input, pos, budget)
    } else if tag == 4 {
        take_initiate_reserve_withdraw(input, pos, budget)
    } else if tag == 5 {
        take_initiate_teleport(input, pos, budget)
    } else if tag == 6 {
        take_query_holding(input, pos, budget)
    } else if tag == 7 {
        take_buy_execution(input, pos, budget)
    } else {
        None
    }
}

fn take_holding_message<Call>(input: &[u8], pos: usize, budget: u32) -> (r: Option<(Xcm<Call>, usize)>)
    requires
        pos < input@.len(),
        input@[pos as int] == 0 || input@[pos as int] == 1 || input@[pos as int] == 2,
    ensures
        match r {
            Some((value, next)) => pos < next <= input@.len() && parse_xcm(
                input@.skip(pos as int),
            ) == Some((value@, next - pos)) && xcm_depth(value@) <= budget,
            None => parse_xcm(input@.skip(pos as int)) matches Some((m, _)) ==> xcm_depth(m) > budget,
        },
    decreases input@.len() - pos, 0nat,
{
    let ghost s = input@.skip(pos as int);
    let tag = input[pos];
    let at0 = pos + 1;
    assert(s.skip(1) =~= input@.skip(at0 as int));
    let (assets, at1) = match take_asset_list(input, at0) {
        Some(x) => x,
        None => {
            return None;
        },
    };
    let (effects, at2) = match take_order_list::<Call>(input, Ghost(pos as int), at1, budget) {
        Some(x) => x,
        None => {
            return None;
        },
    };
    if tag == 0 {
        Some((Xcm::WithdrawAsset { assets, effects }, at2))
    } else if tag == 1 {
        Some((Xcm::ReserveAssetDeposited { assets, effects }, at2))
    } else {
        Some((Xcm::ReceiveTeleportedAsset { assets, effects }, at2))
    }
}

fn take_query_response<Call>(input: &[u8], pos: usize, budget: u32) -> (r: Option<(Xcm<Call>, usize)>)
    requires
        pos < input@.len(),
        input@[pos as int] == 3,
    ensures
        match r {
            Some((value, next)) => pos < next <= input@.len() && parse_xcm(
                input@.skip(pos as int),
            ) == Some((value@, next - pos)) && xcm_depth(value@) <= budget,
            None => parse_xcm(input@.skip(pos as int)) matches Some((m, _)) ==> xcm_depth(m) > budget,
        },
    decreases input@.len() - pos, 0nat,
{
    let ghost s = input@.skip(pos as int);
    let tag = input[pos];
    let at0 = pos + 1;
    assert(s.skip(1) =~= input@.skip(at0 as int));
    let (query_id, at1) = match take_compact_max(input, at0, u64::MAX as u128) {
        Some(x) => x,
        None => {
            return None;
        },
    };
    assert(s.skip(at1 - pos) =~= input@.skip(at1 as int));
    let (response, at2) = match take_response(input, at1) {
        Some(x) => x,
        None => {
            return None;
        },
    };
    Some((Xcm::QueryResponse { query_id: query_id as u64, response }, at2))
}

fn take_transfer_asset<Call>(input: &[u8], pos: usize, budget: u32) -> (r: Option<(Xcm<Call>, usize)>)
    requires
        pos < input@.len(),
        input@[pos as int] == 4,
    ensures
        match r {
            Some((value, next)) => pos < next <= input@.len() && parse_xcm(
                input@.skip(pos as int),
            ) == Some((value@, next - pos)) && xcm_depth(value@) <= budget,
            None => parse_xcm(input@.skip(pos as int)) matches Some((m, _)) ==> xcm_depth(m) > budget,
        },
    decreases input@.len() - pos, 0nat,
{
    let ghost s = input@.skip(pos as int);
    let tag = input[pos];
    let at0 = pos + 1;
    assert(s.skip(1) =~= input@.skip(at0 as int));
    let (assets, at1) = match take_asset_list(input, at0) {
        Some(x) => x,
        None => {
            return None;
        },
    };
    assert(s.skip(at1 - pos) =~= input@.skip(at1 as int));
    let (beneficiary, at2) = match take_location(input, at1) {
        Some(x) => x,
        None => {
            return None;
        },
    };
    Some((Xcm::TransferAsset { assets, beneficiary }, at2))
}

fn take_transfer_reserve_asset<Call>(
    input: &[u8],
    pos: usize,
    budget: u32,
) -> (r: Option<(Xcm<Call>, usize)>)
    requires
        pos < input@.len(),
        input@[pos as int] == 5,
    ensures
        match r {
            Some((value, next)) => pos < next <= input@.len() && parse_xcm(
                input@.skip(pos as int),
            ) == Some((value@, next - pos)) && xcm_depth(value@) <= budget,
            None => parse_xcm(input@.skip(pos as int)) matches Some((m, _)) ==> xcm_depth(m) > budget,
        },
    decreases input@.len() - pos, 0nat,
{
    let ghost s = input@.skip(pos as int);
    let tag = input[pos];
    let at0 = pos + 1;
    assert(s.skip(1) =~= input@.skip(at0 as int));
    let (assets, at1) = match take_asset_list(input, at0) {
        Some(x) => x,
        None => {
            return None;
        },
    };
    assert(s.skip(at1 - pos) =~= input@.skip(at1 as int));
    let (dest, at2) = match take_location(input, at1) {
        Some(x) => x,
        None => {
            return None;
        },
    };
    let (effects, at3) = match take_order_list::<()>(input, Ghost(pos as int), at2, budget) {
        Some(x) => x,
        None => {
            return None;
        },
    };
    Some((Xcm::TransferReserveAsset { assets, dest, effects }, at3))
}

#[verifier::rlimit(60)]
fn take_transact<Call>(input: &[u8], pos: usize, budget: u32) -> (r: Option<(Xcm<Call>, usize)>)
    requires
        pos < input@.len(),
        input@[pos as int] == 6,
    ensures
        match r {
            Some((value, next)) => pos < next <= input@.len() && parse_xcm(
                input@.skip(pos as int),
            ) == Some((value@, next - pos)) && xcm_depth(value@) <= budget,
            None => parse_xcm(input@.skip(pos as int)) matches Some((m, _)) ==> xcm_depth(m) > budget,
        },
    decreases input@.len() - pos, 0nat,
{
    let ghost s = input@.skip(pos as int);
    let tag = input[pos];
    let at0 = pos + 1;
    assert(s.skip(1) =~= input@.skip(at0 as int));
    let (origin_type, at1) = match take_origin_kind(input, at0) {
        Some(x) => x,
        None => {
            return None;
        },
    };
    assert(s.skip(at1 - pos) =~= input@.skip(at1 as int));
    let (require_weight_at_most, at2) = match take_u64(input, at1) {
        Some(x) => x,
        None => {
            return None;
        },
    };
    assert(s.skip(at2 - pos) =~= input@.skip(at2 as int));
    let (encoded, at3) = match take_bytes(input, at2) {
        Some(x) => x,
        None => {
            return None;
        },
    };
    Some(
        (
            Xcm::Transact {
                origin_type,
                require_weight_at_most,
                call: DoubleEncoded::from_encoded(encoded),
            },
            at3,
        ),
    )
}

/// Reads a message.
pub fn take_xcm<Call>(input: &[u8], pos: usize, budget: u32) -> (r: Option<(Xcm<Call>, usize)>)
    requires
        pos <= input@.len(),
    ensures
        match r {
            Some((value, next)) => pos < next <= input@.len() && parse_xcm(
                input@.skip(pos as int),
            ) == Some((value@, next - pos)) && xcm_depth(value@) <= budget,
            None => parse_xcm(input@.skip(pos as int)) matches Some((m, _)) ==> xcm_depth(m) > budget,
        },
    decreases input@.len() - pos, 1nat,
{
    if pos >= input.len() {
        return None;
    }
    let tag = input[pos];
    if tag == 0 || tag == 1 || tag == 2 {
        take_holding_message(input, pos, budget)
    } else if tag == 3 {
        take_query_response(input, pos, budget)
    } else if tag == 4 {
        take_transfer_asset(input, pos, budget)
    } else if tag == 5 {
        take_transfer_reserve_asset(input, pos, budget)
    } else if tag == 6 {
        take_transact(input, pos, budget)
    } else {
        None
    }
}

/// A byte string that begins with the encoding of an answer is read as that
/// answer.
pub proof fn lemma_response_complete(r: Response, rest: Seq<u8>)
    ensures
        parse_response(enc_response(r@) + rest) == Some((r@, enc_response(r@).len() as int)),
{
    let s = enc_response(r@) + rest;
    match r {
        Response::Assets(assets) => {
            assert(s.skip(1) =~= enc_asset_list(crate::multiasset::views(assets@)) + rest);
            lemma_asset_list_complete(assets, rest);
        },
    }
}

/// What is read as an answer is the encoding of the answer read.
pub proof fn lemma_response_sound(s: Seq<u8>)
    requires
        parse_response(s).is_some(),
    ensures
        0 < parse_response(s).unwrap().1 <= s.len(),
        enc_response(parse_response(s).unwrap().0) == s.take(parse_response(s).unwrap().1),
{
    lemma_asset_list_sound(s.skip(1));
    let (v, k) = parse_asset_list(s.skip(1)).unwrap();
    assert(seq![s[0]] + s.skip(1).take(k) =~= s.take(1 + k));
}

/// Whether `order` is read back from its encoding followed by `rest`.
pub open spec fn order_reads_back(order: OrderModel, rest: Seq<u8>) -> bool {
    parse_order(enc_order(order) + rest) == Some((order, enc_order(order).len() as int))
}

/// Whether `message` is read back from its encoding followed by `rest`.
pub open spec fn xcm_reads_back(message: XcmModel, rest: Seq<u8>) -> bool {
    parse_xcm(enc_xcm(message) + rest) == Some((message, enc_xcm(message).len() as int))
}

/// No encoding of an order or a message is empty.
pub proof fn lemma_enc_nonempty(o: OrderModel, m: XcmModel)
    ensures
        enc_order(o).len() >= 1,
        enc_xcm(m).len() >= 1,
{
}

/// A byte string that begins with the encodings of a list of orders is
/// read as those orders.
pub proof fn lemma_orders_complete<Call>(items: Seq<Order<Call>>, rest: Seq<u8>)
    ensures
        parse_orders(enc_orders(order_models(items)) + rest, items.len()) == Some(
            (order_models(items), enc_orders(order_models(items)).len() as int),
        ),
    decreases items, 0nat,
{
    let models = order_models(items);
    if items.len() > 0 {
        let later = items.subrange(1, items.len() as int);
        let tail = enc_orders(order_models(later)) + rest;
        let s = enc_orders(models) + rest;
        assert(models.subrange(1, models.len() as int) =~= order_models(later));
        assert(s =~= enc_order(models[0]) + tail);
        lemma_order_complete(items[0], tail);
        lemma_enc_nonempty(models[0], arbitrary());
        assert(s.skip(enc_order(models[0]).len() as int) =~= tail);
        lemma_orders_complete(later, rest);
        assert(seq![models[0]] + order_models(later) =~= models);
    } else {
        assert(models =~= Seq::empty());
    }
}

/// A byte string that holds the encoding of a list of orders behind
/// `prefix` is read, at that place, as that list.
pub proof fn lemma_order_list_complete<Call>(list: Vec<Order<Call>>, prefix: Seq<u8>, rest: Seq<u8>)
    requires
        prefix.len() > 0,
    ensures
        parse_order_list_at(
            prefix + enc_order_list(order_models(list@)) + rest,
            prefix.len() as int,
        ) == Some((order_models(list@), enc_order_list(order_models(list@)).len() as int)),
    decreases list, 1nat,
{
    let models = order_models(list@);
    let s = prefix + enc_order_list(models) + rest;
    let c = compact(models.len());
    let tail = enc_orders(models) + rest;
    assert(list@.len() == list.len());
    assert(s.skip(prefix.len() as int) =~= c + tail);
    lemma_parse_compact_complete(models.len() as u128, tail);
    lemma_compact_shape(models.len() as u128);
    assert(s.skip((prefix.len() + c.len()) as int) =~= tail);
    lemma_orders_complete(list@, rest);
    assert(Seq::<OrderModel>::empty() + models =~= models);
}

/// A byte string that begins with the encodings of a list of messages is
/// read as those messages.
pub proof fn lemma_xcms_complete<Call>(items: Seq<Xcm<Call>>, rest: Seq<u8>)
    ensures
        parse_xcms(enc_xcms(xcm_models(items)) + rest, items.len()) == Some(
            (xcm_models(items), enc_xcms(xcm_models(items)).len() as int),
        ),
    decreases items, 0nat,
{
    let models = xcm_models(items);
    if items.len() > 0 {
        let later = items.subrange(1, items.len() as int);
        let tail = enc_xcms(xcm_models(later)) + rest;
        let s = enc_xcms(models) + rest;
        assert(models.subrange(1, models.len() as int) =~= xcm_models(later));
        assert(s =~= enc_xcm(models[0]) + tail);
        lemma_xcm_complete(items[0], tail);
        lemma_enc_nonempty(arbitrary(), models[0]);
        assert(s.skip(enc_xcm(models[0]).len() as int) =~= tail);
        lemma_xcms_complete(later, rest);
        assert(seq![models[0]] + xcm_models(later) =~= models);
    } else {
        assert(models =~= Seq::empty());
    }
}

/// A byte string that holds the encoding of a list of messages behind
/// `prefix` is read, at that place, as that list.
pub proof fn lemma_xcm_list_complete<Call>(list: Vec<Xcm<Call>>, prefix: Seq<u8>, rest: Seq<u8>)
    requires
        prefix.len() > 0,
    ensures
        parse_xcm_list_at(
            prefix + enc_xcm_list(xcm_models(list@)) + rest,
            prefix.len() as int,
        ) == Some((xcm_models(list@), enc_xcm_list(xcm_models(list@)).len() as int)),
    decreases list, 1nat,
{
    let models = xcm_models(list@);
    let s = prefix + enc_xcm_list(models) + rest;
    let c = compact(models.len());
    let tail = enc_xcms(models) + rest;
    assert(list@.len() == list.len());
    assert(s.skip(prefix.len() as int) =~= c + tail);
    lemma_parse_compact_complete(models.len() as u128, tail);
    lemma_compact_shape(models.len() as u128);
    assert(s.skip((prefix.len() + c.len()) as int) =~= tail);
    lemma_xcms_complete(list@, rest);
    assert(Seq::<XcmModel>::empty() + models =~= models);
}

proof fn lemma_deposit_asset_complete(
    assets: MultiAssetFilter,
    max_assets: u32,
    beneficiary: MultiLocation,
    rest: Seq<u8>,
)
    ensures
        order_reads_back(
            OrderModel::DepositAsset {
                assets: assets@,
                max_assets,
                beneficiary: beneficiary@,
            },
            rest,
        ),
{
    let s = enc_order(
        OrderModel::DepositAsset {
            assets: assets@,
            max_assets,
            beneficiary: beneficiary@,
        },
    ) + rest;
    let f1 = enc_filter(assets@);
    let f2 = le_bytes(max_assets as nat, 4);
    let f3 = enc_location(beneficiary@);
    assert(s.skip(1) =~= f1 + (f2 + f3 + rest));
    lemma_filter_complete(assets, f2 + f3 + rest);
    assert(s.skip((1 + f1.len()) as int) =~= f2 + (f3 + rest));
    lemma_u32_complete(max_assets, f3 + rest);
    assert(s.skip((1 + f1.len() + 4) as int) =~= f3 + rest);
    lemma_location_complete(beneficiary, rest);
}

proof fn lemma_deposit_reserve_asset_complete(
    assets: MultiAssetFilter,
    max_assets: u32,
    dest: MultiLocation,
    effects: Vec<Order<()>>,
    rest: Seq<u8>,
)
    ensures
        order_reads_back(
            OrderModel::DepositReserveAsset {
                assets: assets@,
                max_assets,
                dest: dest@,
                effects: order_models(effects@),
            },
            rest,
        ),
    decreases effects, 2nat,
{
    let s = enc_order(
        OrderModel::DepositReserveAsset {
            assets: assets@,
            max_assets,
            dest: dest@,
            effects: order_models(effects@),
        },
    ) + rest;
    let f1 = enc_filter(assets@);
    let f2 = le_bytes(max_assets as nat, 4);
    let f3 = enc_location(dest@);
    let f4 = enc_order_list(order_models(effects@));
    assert(s.skip(1) =~= f1 + (f2 + f3 + f4 + rest));
    lemma_filter_complete(assets, f2 + f3 + f4 + rest);
    assert(s.skip((1 + f1.len()) as int) =~= f2 + (f3 + f4 + rest));
    lemma_u32_complete(max_assets, f3 + f4 + rest);
    assert(s.skip((1 + f1.len() + 4) as int) =~= f3 + (f4 + rest));
    lemma_location_complete(dest, f4 + rest);
    let prefix = seq![2u8] + f1 + f2 + f3;
    assert(s =~= prefix + f4 + rest);
    lemma_order_list_complete(effects, prefix, rest);
}

proof fn lemma_exchange_asset_complete(
    give: MultiAssetFilter,
    receive: Vec<MultiAsset>,
    rest: Seq<u8>,
)
    ensures
        order_reads_back(
            OrderModel::ExchangeAsset {
                give: give@,
                receive: crate::multiasset::views(receive@),
            },
            rest,
        ),
{
    let s = enc_order(
        OrderModel::ExchangeAsset {
            give: give@,
            receive: crate::multiasset::views(receive@),
        },
    ) + rest;
    let f1 = enc_filter(give@);
    let f2 = enc_asset_list(crate::multiasset::views(receive@));
    assert(s.skip(1) =~= f1 + (f2 + rest));
    lemma_filter_complete(give, f2 + rest);
    assert(s.skip((1 + f1.len()) as int) =~= f2 + rest);
    lemma_asset_list_complete(receive, rest);
}

proof fn lemma_initiate_reserve_withdraw_complete(
    assets: MultiAssetFilter,
    reserve: MultiLocation,
    effects: Vec<Order<()>>,
    rest: Seq<u8>,
)
    ensures
        order_reads_back(
            OrderModel::InitiateReserveWithdraw {
                assets: assets@,
                reserve: reserve@,
                effects: order_models(effects@),
            },
            rest,
        ),
    decreases effects, 2nat,
{
    let s = enc_order(
        OrderModel::InitiateReserveWithdraw {
            assets: assets@,
            reserve: reserve@,
            effects: order_models(effects@),
        },
    ) + rest;
    let f1 = enc_filter(assets@);
    let f2 = enc_location(reserve@);
    let f3 = enc_order_list(order_models(effects@));
    assert(s.skip(1) =~= f1 + (f2 + f3 + rest));
    lemma_filter_complete(assets, f2 + f3 + rest);
    assert(s.skip((1 + f1.len()) as int) =~= f2 + (f3 + rest));
    lemma_location_complete(reserve, f3 + rest);
    let prefix = seq![4u8] + f1 + f2;
    assert(s =~= prefix + f3 + rest);
    lemma_order_list_complete(effects, prefix, rest);
}

proof fn lemma_initiate_teleport_complete(
    assets: MultiAssetFilter,
    dest: MultiLocation,
    effects: Vec<Order<()>>,
    rest: Seq<u8>,
)
    ensures
        order_reads_back(
            OrderModel::InitiateTeleport {
                assets: assets@,
                dest: dest@,
                effects: order_models(effects@),
            },
            rest,
        ),
    decreases effects, 2nat,
{
    let s = enc_order(
        OrderModel::InitiateTeleport {
            assets: assets@,
            dest: dest@,
            effects: order_models(effects@),
        },
    ) + rest;
    let f1 = enc_filter(assets@);
    let f2 = enc_location(dest@);
    let f3 = enc_order_list(order_models(effects@));
    assert(s.skip(1) =~= f1 + (f2 + f3 + rest));
    lemma_filter_complete(assets, f2 + f3 + rest);
    assert(s.skip((1 + f1.len()) as int) =~= f2 + (f3 + rest));
    lemma_location_complete(dest, f3 + rest);
    let prefix = seq![5u8] + f1 + f2;
    assert(s =~= prefix + f3 + rest);
    lemma_order_list_complete(effects, prefix, rest);
}

proof fn lemma_query_holding_complete(
    query_id: u64,
    dest: MultiLocation,
    assets: MultiAssetFilter,
    rest: Seq<u8>,
)
    ensures
        order_reads_back(
            OrderModel::QueryHolding {
                query_id,
                dest: dest@,
                assets: assets@,
            },
            rest,
        ),
{
    let s = enc_order(
        OrderModel::QueryHolding {
            query_id,
            dest: dest@,
            assets: assets@,
        },
    ) + rest;
    let f1 = compact(query_id as nat);
    let f2 = enc_location(dest@);
    let f3 = enc_filter(assets@);
    assert(s.skip(1) =~= f1 + (f2 + f3 + rest));
    lemma_parse_compact_complete(query_id as u128, f2 + f3 + rest);
    assert(s.skip((1 + f1.len()) as int) =~= f2 + (f3 + rest));
    lemma_location_complete(dest, f3 + rest);
    assert(s.skip((1 + f1.len() + f2.len()) as int) =~= f3 + rest);
    lemma_filter_complete(assets, rest);
}

proof fn lemma_buy_execution_complete<Call>(
    fees: MultiAsset,
    weight: u64,
    debt: u64,
    halt_on_error: bool,
    xcm: Vec<Xcm<Call>>,
    rest: Seq<u8>,
)
    ensures
        order_reads_back(
            OrderModel::BuyExecution {
                fees: fees@,
                weight,
                debt,
                halt_on_error,
                xcm: xcm_models(xcm@),
            },
            rest,
        ),
    decreases xcm, 2nat,
{
    let s = enc_order(
        OrderModel::BuyExecution {
            fees: fees@,
            weight,
            debt,
            halt_on_error,
            xcm: xcm_models(xcm@),
        },
    ) + rest;
    let f1 = enc_asset(fees@);
    let f2 = le_bytes(weight as nat, 8);
    let f3 = le_bytes(debt as nat, 8);
    let f4 = enc_bool(halt_on_error);
    let f5 = enc_xcm_list(xcm_models(xcm@));
    assert(s.skip(1) =~= f1 + (f2 + f3 + f4 + f5 + rest));
    lemma_asset_complete(fees, f2 + f3 + f4 + f5 + rest);
    assert(s.skip((1 + f1.len()) as int) =~= f2 + (f3 + f4 + f5 + rest));
    lemma_u64_complete(weight, f3 + f4 + f5 + rest);
    assert(s.skip((1 + f1.len() + 8) as int) =~= f3 + (f4 + f5 + rest));
    lemma_u64_complete(debt, f4 + f5 + rest);
    assert(s.skip((1 + f1.len() + 8 + 8) as int) =~= f4 + (f5 + rest));
    let prefix = seq![7u8] + f1 + f2 + f3 + f4;
    assert(s =~= prefix + f5 + rest);
    lemma_xcm_list_complete(xcm, prefix, rest);
}

/// A byte string that begins with the encoding of an order is read as
/// that order.
pub proof fn lemma_order_complete<Call>(o: Order<Call>, rest: Seq<u8>)
    ensures
        parse_order(enc_order(o@) + rest) == Some((o@, enc_order(o@).len() as int)),
    decreases o, 0nat,
{
    match o {
        Order::Noop => {},
        Order::DepositAsset { assets, max_assets, beneficiary } => {
            lemma_deposit_asset_complete(assets, max_assets, beneficiary, rest);
        },
        Order::DepositReserveAsset { assets, max_assets, dest, effects } => {
            lemma_deposit_reserve_asset_complete(assets, max_assets, dest, effects, rest);
        },
        Order::ExchangeAsset { give, receive } => {
            lemma_exchange_asset_complete(give, receive, rest);
        },
        Order::InitiateReserveWithdraw { assets, reserve, effects } => {
            lemma_initiate_reserve_withdraw_complete(assets, reserve, effects, rest);
        },
        Order::InitiateTeleport { assets, dest, effects } => {
            lemma_initiate_teleport_complete(assets, dest, effects, rest);
        },
        Order::QueryHolding { query_id, dest, assets } => {
            lemma_query_holding_complete(query_id, dest, assets, rest);
        },
        Order::BuyExecution { fees, weight, debt, halt_on_error, xcm } => {
            lemma_buy_execution_complete(fees, weight, debt, halt_on_error, xcm, rest);
        },
    }
}

proof fn lemma_withdraw_asset_complete<Call>(
    assets: Vec<MultiAsset>,
    effects: Vec<Order<Call>>,
    rest: Seq<u8>,
)
    ensures
        xcm_reads_back(
            XcmModel::WithdrawAsset {
                assets: crate::multiasset::views(assets@),
                effects: order_models(effects@),
            },
            rest,
        ),
    decreases effects, 2nat,
{
    let s = enc_xcm(
        XcmModel::WithdrawAsset {
            assets: crate::multiasset::views(assets@),
            effects: order_models(effects@),
        },
    ) + rest;
    let f1 = enc_asset_list(crate::multiasset::views(assets@));
    let f2 = enc_order_list(order_models(effects@));
    assert(s.skip(1) =~= f1 + (f2 + rest));
    lemma_asset_list_complete(assets, f2 + rest);
    let prefix = seq![0u8] + f1;
    assert(s =~= prefix + f2 + rest);
    lemma_order_list_complete(effects, prefix, rest);
}

proof fn lemma_reserve_asset_deposited_complete<Call>(
    assets: Vec<MultiAsset>,
    effects: Vec<Order<Call>>,
    rest: Seq<u8>,
)
    ensures
        xcm_reads_back(
            XcmModel::ReserveAssetDeposited {
                assets: crate::multiasset::views(assets@),
                effects: order_models(effects@),
            },
            rest,
        ),
    decreases effects, 2nat,
{
    let s = enc_xcm(
        XcmModel::ReserveAssetDeposited {
            assets: crate::multiasset::views(assets@),
            effects: order_models(effects@),
        },
    ) + rest;
    let f1 = enc_asset_list(crate::multiasset::views(assets@));
    let f2 = enc_order_list(order_models(effects@));
    assert(s.skip(1) =~= f1 + (f2 + rest));
    lemma_asset_list_complete(assets, f2 + rest);
    let prefix = seq![1u8] + f1;
    assert(s =~= prefix + f2 + rest);
    lemma_order_list_complete(effects, prefix, rest);
}

proof fn lemma_receive_teleported_asset_complete<Call>(
    assets: Vec<MultiAsset>,
    effects: Vec<Order<Call>>,
    rest: Seq<u8>,
)
    ensures
        xcm_reads_back(
            XcmModel::ReceiveTeleportedAsset {
                assets: crate::multiasset::views(assets@),
                effects: order_models(effects@),
            },
            rest,
        ),
    decreases effects, 2nat,
{
    let s = enc_xcm(
        XcmModel::ReceiveTeleportedAsset {
            assets: crate::multiasset::views(assets@),
            effects: order_models(effects@),
        },
    ) + rest;
    let f1 = enc_asset_list(crate::multiasset::views(assets@));
    let f2 = enc_order_list(order_models(effects@));
    assert(s.skip(1) =~= f1 + (f2 + rest));
    lemma_asset_list_complete(assets, f2 + rest);
    let prefix = seq![2u8] + f1;
    assert(s =~= prefix + f2 + rest);
    lemma_order_list_complete(effects, prefix, rest);
}

proof fn lemma_query_response_complete(
    query_id: u64,
    response: Response,
    rest: Seq<u8>,
)
    ensures
        xcm_reads_back(
            XcmModel::QueryResponse {
                query_id,
                response: response@,
            },
            rest,
        ),
{
    let s = enc_xcm(
        XcmModel::QueryResponse {
            query_id,
            response: response@,
        },
    ) + rest;
    let f1 = compact(query_id as nat);
    let f2 = enc_response(response@);
    assert(s.skip(1) =~= f1 + (f2 + rest));
    lemma_parse_compact_complete(query_id as u128, f2 + rest);
    assert(s.skip((1 + f1.len()) as int) =~= f2 + rest);
    lemma_response_complete(response, rest);
}

proof fn lemma_transfer_asset_complete(
    assets: Vec<MultiAsset>,
    beneficiary: MultiLocation,
    rest: Seq<u8>,
)
    ensures
        xcm_reads_back(
            XcmModel::TransferAsset {
                assets: crate::multiasset::views(assets@),
                beneficiary: beneficiary@,
            },
            rest,
        ),
{
    let s = enc_xcm(
        XcmModel::TransferAsset {
            assets: crate::multiasset::views(assets@),
            beneficiary: beneficiary@,
        },
    ) + rest;
    let f1 = enc_asset_list(crate::multiasset::views(assets@));
    let f2 = enc_location(beneficiary@);
    assert(s.skip(1) =~= f1 + (f2 + rest));
    lemma_asset_list_complete(assets, f2 + rest);
    assert(s.skip((1 + f1.len()) as int) =~= f2 + rest);
    lemma_location_complete(beneficiary, rest);
}

proof fn lemma_transfer_reserve_asset_complete(
    assets: Vec<MultiAsset>,
    dest: MultiLocation,
    effects: Vec<Order<()>>,
    rest: Seq<u8>,
)
    ensures
        xcm_reads_back(
            XcmModel::TransferReserveAsset {
                assets: crate::multiasset::views(assets@),
                dest: dest@,
                effects: order_models(effects@),
            },
            rest,
        ),
    decreases effects, 2nat,
{
    let s = enc_xcm(
        XcmModel::TransferReserveAsset {
            assets: crate::multiasset::views(assets@),
            dest: dest@,
            effects: order_models(effects@),
        },
    ) + rest;
    let f1 = enc_asset_list(crate::multiasset::views(assets@));
    let f2 = enc_location(dest@);
    let f3 = enc_order_list(order_models(effects@));
    assert(s.skip(1) =~= f1 + (f2 + f3 + rest));
    lemma_asset_list_complete(assets, f2 + f3 + rest);
    assert(s.skip((1 + f1.len()) as int) =~= f2 + (f3 + rest));
    lemma_location_complete(dest, f3 + rest);
    let prefix = seq![5u8] + f1 + f2;
    assert(s =~= prefix + f3 + rest);
    lemma_order_list_complete(effects, prefix, rest);
}

proof fn lemma_transact_complete<Call>(
    origin_type: OriginKind,
    require_weight_at_most: u64,
    call: DoubleEncoded<Call>,
    rest: Seq<u8>,
)
    ensures
        xcm_reads_back(
            XcmModel::Transact {
                origin_type,
                require_weight_at_most,
                call: call.encoded@,
            },
            rest,
        ),
{
    let s = enc_xcm(
        XcmModel::Transact {
            origin_type,
            require_weight_at_most,
            call: call.encoded@,
        },
    ) + rest;
    let f1 = enc_origin_kind(origin_type);
    let f2 = le_bytes(require_weight_at_most as nat, 8);
    let f3 = enc_bytes(call.encoded@);
    assert(s.skip(1) =~= f1 + (f2 + f3 + rest));
    assert(s.skip((1 + 1) as int) =~= f2 + (f3 + rest));
    lemma_u64_complete(require_weight_at_most, f3 + rest);
    assert(s.skip((1 + 1 + 8) as int) =~= f3 + rest);
    assert(call.encoded@.len() == call.encoded.len());
    lemma_bytes_complete(call.encoded@, rest);
}

/// A byte string that begins with the encoding of a message is read as
/// that message.
pub proof fn lemma_xcm_complete<Call>(m: Xcm<Call>, rest: Seq<u8>)
    ensures
        parse_xcm(enc_xcm(m@) + rest) == Some((m@, enc_xcm(m@).len() as int)),
    decreases m, 0nat,
{
    match m {
        Xcm::WithdrawAsset { assets, effects } => {
            lemma_withdraw_asset_complete(assets, effects, rest);
        },
        Xcm::ReserveAssetDeposited { assets, effects } => {
            lemma_reserve_asset_deposited_complete(assets, effects, rest);
        },
        Xcm::ReceiveTeleportedAsset { assets, effects } => {
            lemma_receive_teleported_asset_complete(assets, effects, rest);
        },
        Xcm::QueryResponse { query_id, response } => {
            lemma_query_response_complete(query_id, response, rest);
        },
        Xcm::TransferAsset { assets, beneficiary } => {
            lemma_transfer_asset_complete(assets, beneficiary, rest);
        },
        Xcm::TransferReserveAsset { assets, dest, effects } => {
            lemma_transfer_reserve_asset_complete(assets, dest, effects, rest);
        },
        Xcm::Transact { origin_type, require_weight_at_most, call } => {
            lemma_transact_complete(origin_type, require_weight_at_most, call, rest);
        },
    }
}

/// Adjoining parts of a byte string make up the part that spans them.
pub proof fn lemma_join(s: Seq<u8>, from: int, mid: int, more: int)
    requires
        0 <= from,
        0 <= mid,
        0 <= more,
        from + mid + more <= s.len(),
    ensures
        s.subrange(from, from + mid) + s.subrange(from + mid, from + mid + more) == s.subrange(
            from,
            from + mid + more,
        ),
        s.skip(from).take(mid) == s.subrange(from, from + mid),
        s.skip(from + mid).take(more) == s.subrange(from + mid, from + mid + more),
{
    assert(s.subrange(from, from + mid) + s.subrange(from + mid, from + mid + more) =~= s.subrange(
        from,
        from + mid + more,
    ));
    assert(s.skip(from).take(mid) =~= s.subrange(from, from + mid));
    assert(s.skip(from + mid).take(more) =~= s.subrange(from + mid, from + mid + more));
}

/// What is read as a list of orders is the encoding of the list read.
pub proof fn lemma_order_list_at_sound(s: Seq<u8>, q: int)
    requires
        parse_order_list_at(s, q).is_some(),
    ensures
        0 < parse_order_list_at(s, q).unwrap().1,
        0 < q,
        q + parse_order_list_at(s, q).unwrap().1 <= s.len(),
        enc_order_list(parse_order_list_at(s, q).unwrap().0) == s.subrange(
            q,
            q + parse_order_list_at(s, q).unwrap().1,
        ),
    decreases s.len(), 1nat,
{
    lemma_parse_compact_sound(s.skip(q));
    let (count, n) = parse_compact(s.skip(q)).unwrap();
    assert(s.skip(q).skip(n) =~= s.skip(q + n));
    lemma_orders_sound(s.skip(q + n), count as nat);
    let (items, k) = parse_orders(s.skip(q + n), count as nat).unwrap();
    assert(Seq::<OrderModel>::empty() + items =~= items);
    assert(s.skip(q).take(n) + s.skip(q + n).take(k) =~= s.subrange(q, q + n + k));
}

/// What is read as a number of orders is the encodings of the orders read.
pub proof fn lemma_orders_sound(s: Seq<u8>, count: nat)
    requires
        parse_orders(s, count).is_some(),
    ensures
        0 <= parse_orders(s, count).unwrap().1 <= s.len(),
        parse_orders(s, count).unwrap().0.len() == count,
        enc_orders(parse_orders(s, count).unwrap().0) == s.take(parse_orders(s, count).unwrap().1),
    decreases s.len(), 4 + count,
{
    if count == 0 {
        assert(s.take(0) =~= Seq::empty());
    } else {
        lemma_order_sound(s);
        let (o, n) = parse_order(s).unwrap();
        lemma_orders_sound(s.skip(n), (count - 1) as nat);
        let (rest, k) = parse_orders(s.skip(n), (count - 1) as nat).unwrap();
        let all = seq![o] + rest;
        assert(all.subrange(1, all.len() as int) =~= rest);
        assert(s.take(n) + s.skip(n).take(k) =~= s.take(n + k));
    }
}

/// What is read as a list of messages is the encoding of the list read.
pub proof fn lemma_xcm_list_at_sound(s: Seq<u8>, q: int)
    requires
        parse_xcm_list_at(s, q).is_some(),
    ensures
        0 < parse_xcm_list_at(s, q).unwrap().1,
        0 < q,
        q + parse_xcm_list_at(s, q).unwrap().1 <= s.len(),
        enc_xcm_list(parse_xcm_list_at(s, q).unwrap().0) == s.subrange(
            q,
            q + parse_xcm_list_at(s, q).unwrap().1,
        ),
    decreases s.len(), 1nat,
{
    lemma_parse_compact_sound(s.skip(q));
    let (count, n) = parse_compact(s.skip(q)).unwrap();
    assert(s.skip(q).skip(n) =~= s.skip(q + n));
    lemma_xcms_sound(s.skip(q + n), count as nat);
    let (items, k) = parse_xcms(s.skip(q + n), count as nat).unwrap();
    assert(Seq::<XcmModel>::empty() + items =~= items);
    assert(s.skip(q).take(n) + s.skip(q + n).take(k) =~= s.subrange(q, q + n + k));
}

/// What is read as a number of messages is the encodings of the messages
/// read.
pub proof fn lemma_xcms_sound(s: Seq<u8>, count: nat)
    requires
        parse_xcms(s, count).is_some(),
    ensures
        0 <= parse_xcms(s, count).unwrap().1 <= s.len(),
        parse_xcms(s, count).unwrap().0.len() == count,
        enc_xcms(parse_xcms(s, count).unwrap().0) == s.take(parse_xcms(s, count).unwrap().1),
    decreases s.len(), 4 + count,
{
    if count == 0 {
        assert(s.take(0) =~= Seq::empty());
    } else {
        lemma_xcm_sound(s);
        let (m, n) = parse_xcm(s).unwrap();
        lemma_xcms_sound(s.skip(n), (count - 1) as nat);
        let (rest, k) = parse_xcms(s.skip(n), (count - 1) as nat).unwrap();
        let all = seq![m] + rest;
        assert(all.subrange(1, all.len() as int) =~= rest);
        assert(s.take(n) + s.skip(n).take(k) =~= s.take(n + k));
    }
}

proof fn lemma_deposit_asset_sound(s: Seq<u8>)
    requires
        s.len() > 0,
        s[0] == 1,
        parse_order(s).is_some(),
    ensures
        0 < parse_order(s).unwrap().1 <= s.len(),
        enc_order(parse_order(s).unwrap().0) == s.take(parse_order(s).unwrap().1),
    decreases s.len(), 2nat,
{
    lemma_filter_sound(s.skip(1));
    let (assets, a) = parse_filter(s.skip(1)).unwrap();
    lemma_u32_sound(s.skip(1 + a));
    lemma_location_sound(s.skip(1 + a + 4));
    let (l, c) = parse_location(s.skip(1 + a + 4)).unwrap();
    assert(seq![1u8] + s.skip(1).take(a) + s.skip(1 + a).take(4) + s.skip(1 + a + 4).take(c)
        =~= s.take(1 + a + 4 + c));
}

proof fn lemma_deposit_reserve_asset_sound(s: Seq<u8>)
    requires
        s.len() > 0,
        s[0] == 2,
        parse_order(s).is_some(),
    ensures
        0 < parse_order(s).unwrap().1 <= s.len(),
        enc_order(parse_order(s).unwrap().0) == s.take(parse_order(s).unwrap().1),
    decreases s.len(), 2nat,
{
    lemma_filter_sound(s.skip(1));
    let (assets, a) = parse_filter(s.skip(1)).unwrap();
    lemma_u32_sound(s.skip(1 + a));
    lemma_location_sound(s.skip(1 + a + 4));
    let (l, c) = parse_location(s.skip(1 + a + 4)).unwrap();
    let q = 1 + a + 4 + c;
    lemma_order_list_at_sound(s, q);
    let (effects, d) = parse_order_list_at(s, q).unwrap();
    assert(seq![2u8] + s.skip(1).take(a) + s.skip(1 + a).take(4) + s.skip(1 + a + 4).take(c)
        + s.subrange(q, q + d) =~= s.take(q + d));
}

proof fn lemma_exchange_asset_sound(s: Seq<u8>)
    requires
        s.len() > 0,
        s[0] == 3,
        parse_order(s).is_some(),
    ensures
        0 < parse_order(s).unwrap().1 <= s.len(),
        enc_order(parse_order(s).unwrap().0) == s.take(parse_order(s).unwrap().1),
    decreases s.len(), 2nat,
{
    lemma_filter_sound(s.skip(1));
    let (give, a) = parse_filter(s.skip(1)).unwrap();
    lemma_asset_list_sound(s.skip(1 + a));
    let (receive, b) = parse_asset_list(s.skip(1 + a)).unwrap();
    assert(seq![3u8] + s.skip(1).take(a) + s.skip(1 + a).take(b) =~= s.take(1 + a + b));
}

proof fn lemma_initiate_reserve_withdraw_sound(s: Seq<u8>)
    requires
        s.len() > 0,
        s[0] == 4,
        parse_order(s).is_some(),
    ensures
        0 < parse_order(s).unwrap().1 <= s.len(),
        enc_order(parse_order(s).unwrap().0) == s.take(parse_order(s).unwrap().1),
    decreases s.len(), 2nat,
{
    lemma_filter_sound(s.skip(1));
    let (assets, a) = parse_filter(s.skip(1)).unwrap();
    lemma_location_sound(s.skip(1 + a));
    let (l, b) = parse_location(s.skip(1 + a)).unwrap();
    let q = 1 + a + b;
    lemma_order_list_at_sound(s, q);
    let (effects, d) = parse_order_list_at(s, q).unwrap();
    assert(seq![4u8] + s.skip(1).take(a) + s.skip(1 + a).take(b) + s.subrange(q, q + d) =~= s.take(
        q + d,
    ));
}

proof fn lemma_initiate_teleport_sound(s: Seq<u8>)
    requires
        s.len() > 0,
        s[0] == 5,
        parse_order(s).is_some(),
    ensures
        0 < parse_order(s).unwrap().1 <= s.len(),
        enc_order(parse_order(s).unwrap().0) == s.take(parse_order(s).unwrap().1),
    decreases s.len(), 2nat,
{
    lemma_filter_sound(s.skip(1));
    let (assets, a) = parse_filter(s.skip(1)).unwrap();
    lemma_location_sound(s.skip(1 + a));
    let (l, b) = parse_location(s.skip(1 + a)).unwrap();
    let q = 1 + a + b;
    lemma_order_list_at_sound(s, q);
    let (effects, d) = parse_order_list_at(s, q).unwrap();
    assert(seq![5u8] + s.skip(1).take(a) + s.skip(1 + a).take(b) + s.subrange(q, q + d) =~= s.take(
        q + d,
    ));
}

proof fn lemma_query_holding_sound(s: Seq<u8>)
    requires
        s.len() > 0,
        s[0] == 6,
        parse_order(s).is_some(),
    ensures
        0 < parse_order(s).unwrap().1 <= s.len(),
        enc_order(parse_order(s).unwrap().0) == s.take(parse_order(s).unwrap().1),
    decreases s.len(), 2nat,
{
    lemma_parse_compact_sound(s.skip(1));
    let (query_id, a) = parse_compact(s.skip(1)).unwrap();
    lemma_location_sound(s.skip(1 + a));
    let (l, b) = parse_location(s.skip(1 + a)).unwrap();
    lemma_filter_sound(s.skip(1 + a + b));
    let (assets, c) = parse_filter(s.skip(1 + a + b)).unwrap();
    assert(seq![6u8] + s.skip(1).take(a) + s.skip(1 + a).take(b) + s.skip(1 + a + b).take(c)
        =~= s.take(1 + a + b + c));
}

proof fn lemma_buy_execution_sound(s: Seq<u8>)
    requires
        s.len() > 0,
        s[0] == 7,
        parse_order(s).is_some(),
    ensures
        0 < parse_order(s).unwrap().1 <= s.len(),
        enc_order(parse_order(s).unwrap().0) == s.take(parse_order(s).unwrap().1),
    decreases s.len(), 2nat,
{
    lemma_asset_sound(s.skip(1));
    let (fees, a) = parse_asset(s.skip(1)).unwrap();
    lemma_u64_sound(s.skip(1 + a));
    lemma_u64_sound(s.skip(1 + a + 8));
    let (halt, d) = parse_bool(s.skip(1 + a + 16)).unwrap();
    let q = 1 + a + 17;
    lemma_xcm_list_at_sound(s, q);
    let (xcm, e) = parse_xcm_list_at(s, q).unwrap();
    assert(enc_bool(halt) =~= s.skip(1 + a + 16).take(1));
    let f1 = s.skip(1).take(a);
    let f2 = s.skip(1 + a).take(8);
    let f3 = s.skip(1 + a + 8).take(8);
    let f4 = s.skip(1 + a + 16).take(1);
    lemma_join(s, 0, 1, a);
    lemma_join(s, 0, 1 + a, 8);
    lemma_join(s, 0, 1 + a + 8, 8);
    lemma_join(s, 0, 1 + a + 16, 1);
    lemma_join(s, 0, q, e);
    assert(seq![7u8] =~= s.subrange(0, 1));
    assert(f1 == s.subrange(1, 1 + a)) by {
        lemma_join(s, 1, 0, a);
    }
    assert(f2 == s.subrange(1 + a, 1 + a + 8)) by {
        lemma_join(s, 1 + a, 0, 8);
    }
    assert(f3 == s.subrange(1 + a + 8, 1 + a + 16)) by {
        lemma_join(s, 1 + a + 8, 0, 8);
    }
    assert(f4 == s.subrange(1 + a + 16, q)) by {
        lemma_join(s, 1 + a + 16, 0, 1);
    }
    assert(s.take(q + e) == s.subrange(0, q + e));
}

/// What is read as an order is the encoding of the order read.
pub proof fn lemma_order_sound(s: Seq<u8>)
    requires
        parse_order(s).is_some(),
    ensures
        0 < parse_order(s).unwrap().1 <= s.len(),
        enc_order(parse_order(s).unwrap().0) == s.take(parse_order(s).unwrap().1),
    decreases s.len(), 3nat,
{
    if s[0] == 0 {
        assert(seq![0u8] =~= s.take(1));
    } else if s[0] == 1 {
        lemma_deposit_asset_sound(s);
    } else if s[0] == 2 {
        lemma_deposit_reserve_asset_sound(s);
    } else if s[0] == 3 {
        lemma_exchange_asset_sound(s);
    } else if s[0] == 4 {
        lemma_initiate_reserve_withdraw_sound(s);
    } else if s[0] == 5 {
        lemma_initiate_teleport_sound(s);
    } else if s[0] == 6 {
        lemma_query_holding_sound(s);
    } else {
        lemma_buy_execution_sound(s);
    }
}

proof fn lemma_holding_message_sound(s: Seq<u8>)
    requires
        s.len() > 0,
        s[0] == 0 || s[0] == 1 || s[0] == 2,
        parse_xcm(s).is_some(),
    ensures
        0 < parse_xcm(s).unwrap().1 <= s.len(),
        enc_xcm(parse_xcm(s).unwrap().0) == s.take(parse_xcm(s).unwrap().1),
    decreases s.len(), 2nat,
{
    lemma_asset_list_sound(s.skip(1));
    let (assets, a) = parse_asset_list(s.skip(1)).unwrap();
    let q = 1 + a;
    lemma_order_list_at_sound(s, q);
    let (effects, d) = parse_order_list_at(s, q).unwrap();
    assert(seq![s[0]] + s.skip(1).take(a) + s.subrange(q, q + d) =~= s.take(q + d));
}

proof fn lemma_query_response_sound(s: Seq<u8>)
    requires
        s.len() > 0,
        s[0] == 3,
        parse_xcm(s).is_some(),
    ensures
        0 < parse_xcm(s).unwrap().1 <= s.len(),
        enc_xcm(parse_xcm(s).unwrap().0) == s.take(parse_xcm(s).unwrap().1),
    decreases s.len(), 2nat,
{
    lemma_parse_compact_sound(s.skip(1));
    let (query_id, a) = parse_compact(s.skip(1)).unwrap();
    lemma_response_sound(s.skip(1 + a));
    let (r, b) = parse_response(s.skip(1 + a)).unwrap();
    assert(seq![3u8] + s.skip(1).take(a) + s.skip(1 + a).take(b) =~= s.take(1 + a + b));
}

proof fn lemma_transfer_asset_sound(s: Seq<u8>)
    requires
        s.len() > 0,
        s[0] == 4,
        parse_xcm(s).is_some(),
    ensures
        0 < parse_xcm(s).unwrap().1 <= s.len(),
        enc_xcm(parse_xcm(s).unwrap().0) == s.take(parse_xcm(s).unwrap().1),
    decreases s.len(), 2nat,
{
    lemma_asset_list_sound(s.skip(1));
    let (assets, a) = parse_asset_list(s.skip(1)).unwrap();
    lemma_location_sound(s.skip(1 + a));
    let (l, b) = parse_location(s.skip(1 + a)).unwrap();
    assert(seq![4u8] + s.skip(1).take(a) + s.skip(1 + a).take(b) =~= s.take(1 + a + b));
}

proof fn lemma_transfer_reserve_asset_sound(s: Seq<u8>)
    requires
        s.len() > 0,
        s[0] == 5,
        parse_xcm(s).is_some(),
    ensures
        0 < parse_xcm(s).unwrap().1 <= s.len(),
        enc_xcm(parse_xcm(s).unwrap().0) == s.take(parse_xcm(s).unwrap().1),
    decreases s.len(), 2nat,
{
    lemma_asset_list_sound(s.skip(1));
    let (assets, a) = parse_asset_list(s.skip(1)).unwrap();
    lemma_location_sound(s.skip(1 + a));
    let (l, b) = parse_location(s.skip(1 + a)).unwrap();
    let q = 1 + a + b;
    lemma_order_list_at_sound(s, q);
    let (effects, d) = parse_order_list_at(s, q).unwrap();
    assert(seq![5u8] + s.skip(1).take(a) + s.skip(1 + a).take(b) + s.subrange(q, q + d) =~= s.take(
        q + d,
    ));
}

proof fn lemma_transact_sound(s: Seq<u8>)
    requires
        s.len() > 0,
        s[0] == 6,
        parse_xcm(s).is_some(),
    ensures
        0 < parse_xcm(s).unwrap().1 <= s.len(),
        enc_xcm(parse_xcm(s).unwrap().0) == s.take(parse_xcm(s).unwrap().1),
    decreases s.len(), 2nat,
{
    let (kind, a) = parse_origin_kind(s.skip(1)).unwrap();
    lemma_u64_sound(s.skip(2));
    lemma_bytes_sound(s.skip(10));
    let (call, c) = parse_bytes(s.skip(10)).unwrap();
    assert(enc_origin_kind(kind) =~= s.skip(1).take(1));
    assert(seq![6u8] + s.skip(1).take(1) + s.skip(2).take(8) + s.skip(10).take(c) =~= s.take(
        10 + c,
    ));
}

/// What is read as a message is the encoding of the message read.
pub proof fn lemma_xcm_sound(s: Seq<u8>)
    requires
        parse_xcm(s).is_some(),
    ensures
        0 < parse_xcm(s).unwrap().1 <= s.len(),
        enc_xcm(parse_xcm(s).unwrap().0) == s.take(parse_xcm(s).unwrap().1),
    decreases s.len(), 3nat,
{
    if s[0] == 0 || s[0] == 1 || s[0] == 2 {
        lemma_holding_message_sound(s);
    } else if s[0] == 3 {
        lemma_query_response_sound(s);
    } else if s[0] == 4 {
        lemma_transfer_asset_sound(s);
    } else if s[0] == 5 {
        lemma_transfer_reserve_asset_sound(s);
    } else {
        lemma_transact_sound(s);
    }
}

/// Why bytes could not be decoded.
#[derive(Clone, Copy, Debug, PartialEq, Eq, Structural)]
pub enum DecodeError {
    /// The bytes do not begin with the encoding of a value that can be
    /// decoded: a variant number is unknown, a number is not in its
    /// shortest form or out of range, the bytes end too early, or lists are
    /// nested more deeply than `MAX_XCM_DECODE_DEPTH`.
    Malformed,
    /// The bytes begin with the encoding of a value, but more bytes follow
    /// it.
    TrailingBytes,
}

/// What decoding `s` as a message returns.
pub open spec fn decoded_xcm(s: Seq<u8>) -> Result<XcmModel, DecodeError> {
    match parse_xcm(s) {
        Some((m, n)) => if xcm_depth(m) > MAX_XCM_DECODE_DEPTH {
            Err(DecodeError::Malformed)
        } else if n == s.len() {
            Ok(m)
        } else {
            Err(DecodeError::TrailingBytes)
        },
        None => Err(DecodeError::Malformed),
    }
}

/// What decoding `s` as an order returns.
pub open spec fn decoded_order(s: Seq<u8>) -> Result<OrderModel, DecodeError> {
    match parse_order(s) {
        Some((o, n)) => if order_depth(o) > MAX_XCM_DECODE_DEPTH {
            Err(DecodeError::Malformed)
        } else if n == s.len() {
            Ok(o)
        } else {
            Err(DecodeError::TrailingBytes)
        },
        None => Err(DecodeError::Malformed),
    }
}

/// The value of a result of decoding a message.
pub open spec fn xcm_result<Call>(r: Result<Xcm<Call>, DecodeError>) -> Result<XcmModel, DecodeError> {
    match r {
        Ok(m) => Ok(m@),
        Err(e) => Err(e),
    }
}

/// The value of a result of decoding an order.
pub open spec fn order_result<Call>(r: Result<Order<Call>, DecodeError>) -> Result<
    OrderModel,
    DecodeError,
> {
    match r {
        Ok(o) => Ok(o@),
        Err(e) => Err(e),
    }
}

/// Every message is read back from its encoding, whatever follows the
/// encoding, and reading takes exactly the encoding. Decoding the encoding
/// of a message gives the message, unless it is nested too deeply to be
/// decoded.
pub proof fn law_xcm_decodes_from_its_encoding<Call>(m: Xcm<Call>, rest: Seq<u8>)
    ensures
        parse_xcm(enc_xcm(m@) + rest) == Some((m@, enc_xcm(m@).len() as int)),
        xcm_depth(m@) <= MAX_XCM_DECODE_DEPTH ==> decoded_xcm(enc_xcm(m@)) == Ok::<
            XcmModel,
            DecodeError,
        >(m@),
{
    lemma_xcm_complete(m, rest);
    lemma_xcm_complete(m, Seq::empty());
    assert(enc_xcm(m@) + Seq::<u8>::empty() =~= enc_xcm(m@));
}

/// Whatever bytes are read as a message, the bytes that were read are the
/// encoding of that message: encoding what was decoded gives the bytes
/// back.
pub proof fn law_xcm_encodes_to_what_was_read(s: Seq<u8>)
    requires
        parse_xcm(s).is_some(),
    ensures
        0 < parse_xcm(s).unwrap().1 <= s.len(),
        enc_xcm(parse_xcm(s).unwrap().0) == s.take(parse_xcm(s).unwrap().1),
        decoded_xcm(s) matches Ok(m) ==> enc_xcm(m) == s,
{
    lemma_xcm_sound(s);
    assert(s.take(s.len() as int) =~= s);
}

/// Every order is read back from its encoding, whatever follows the
/// encoding, and reading takes exactly the encoding. Decoding the encoding
/// of an order gives the order, unless it is nested too deeply to be
/// decoded.
pub proof fn law_order_decodes_from_its_encoding<Call>(o: Order<Call>, rest: Seq<u8>)
    ensures
        parse_order(enc_order(o@) + rest) == Some((o@, enc_order(o@).len() as int)),
        order_depth(o@) <= MAX_XCM_DECODE_DEPTH ==> decoded_order(enc_order(o@)) == Ok::<
            OrderModel,
            DecodeError,
        >(o@),
{
    lemma_order_complete(o, rest);
    lemma_order_complete(o, Seq::empty());
    assert(enc_order(o@) + Seq::<u8>::empty() =~= enc_order(o@));
}

/// Whatever bytes are read as an order, the bytes that were read are the
/// encoding of that order: encoding what was decoded gives the bytes back.
pub proof fn law_order_encodes_to_what_was_read(s: Seq<u8>)
    requires
        parse_order(s).is_some(),
    ensures
        0 < parse_order(s).unwrap().1 <= s.len(),
        enc_order(parse_order(s).unwrap().0) == s.take(parse_order(s).unwrap().1),
        decoded_order(s) matches Ok(o) ==> enc_order(o) == s,
{
    lemma_order_sound(s);
    assert(s.take(s.len() as int) =~= s);
}

impl<Call> Xcm<Call> {
    /// The encoding of the message.
    pub fn encode(&self) -> (r: Vec<u8>)
        ensures
            r@ == enc_xcm(self@),
    {
        let mut out: Vec<u8> = Vec::new();
        put_xcm(&mut out, self);
        assert(Seq::<u8>::empty() + enc_xcm(self@) =~= enc_xcm(self@));
        out
    }

    /// The message that `input` is the encoding of.
    ///
    /// Decoding succeeds exactly if `input` is the encoding of a message in
    /// which lists are nested no more deeply than `MAX_XCM_DECODE_DEPTH`,
    /// and then returns that message. Otherwise the error tells whether
    /// `input` begins with the encoding of such a message.
    pub fn decode(input: &[u8]) -> (r: Result<Xcm<Call>, DecodeError>)
        ensures
            xcm_result(r) == decoded_xcm(input@),
            r matches Ok(m) ==> enc_xcm(m@) == input@ && xcm_depth(m@) <= MAX_XCM_DECODE_DEPTH,
            r is Err ==> forall|m: Xcm<Call>|
                enc_xcm(#[trigger] m@) == input@ ==> xcm_depth(m@) > MAX_XCM_DECODE_DEPTH,
    {
        assert(input@.skip(0) =~= input@);
        let r = match take_xcm::<Call>(input, 0, MAX_XCM_DECODE_DEPTH) {
            Some((m, next)) => if next == input.len() {
                Ok(m)
            } else {
                Err(DecodeError::TrailingBytes)
            },
            None => Err(DecodeError::Malformed),
        };
        proof {
            if parse_xcm(input@).is_some() {
                law_xcm_encodes_to_what_was_read(input@);
            }
            if r is Err {
                assert forall|m: Xcm<Call>| enc_xcm(#[trigger] m@) == input@ implies xcm_depth(m@)
                    > MAX_XCM_DECODE_DEPTH by {
                    law_xcm_decodes_from_its_encoding(m, Seq::empty());
                }
            }
        }
        r
    }
}

impl<Call> Order<Call> {
    /// The encoding of the order.
    pub fn encode(&self) -> (r: Vec<u8>)
        ensures
            r@ == enc_order(self@),
    {
        let mut out: Vec<u8> = Vec::new();
        put_order(&mut out, self);
        assert(Seq::<u8>::empty() + enc_order(self@) =~= enc_order(self@));
        out
    }

    /// The order that `input` is the encoding of.
    ///
    /// Decoding succeeds exactly if `input` is the encoding of an order in
    /// which lists are nested no more deeply than `MAX_XCM_DECODE_DEPTH`,
    /// and then returns that order. Otherwise the error tells whether
    /// `input` begins with the encoding of such an order.
    pub fn decode(input: &[u8]) -> (r: Result<Order<Call>, DecodeError>)
        ensures
            order_result(r) == decoded_order(input@),
            r matches Ok(o) ==> enc_order(o@) == input@ && order_depth(o@)
                <= MAX_XCM_DECODE_DEPTH,
            r is Err ==> forall|o: Order<Call>|
                enc_order(#[trigger] o@) == input@ ==> order_depth(o@) > MAX_XCM_DECODE_DEPTH,
    {
        assert(input@.skip(0) =~= input@);
        let r = match take_order::<Call>(input, 0, MAX_XCM_DECODE_DEPTH) {
            Some((o, next)) => if next == input.len() {
                Ok(o)
            } else {
                Err(DecodeError::TrailingBytes)
            },
            None => Err(DecodeError::Malformed),
        };
        proof {
            if parse_order(input@).is_some() {
                law_order_encodes_to_what_was_read(input@);
            }
            if r is Err {
                assert forall|o: Order<Call>| enc_order(#[trigger] o@) == input@ implies order_depth(
                    o@,
                ) > MAX_XCM_DECODE_DEPTH by {
                    law_order_decodes_from_its_encoding(o, Seq::empty());
                }
            }
        }
        r
    }
}

} // verus!
