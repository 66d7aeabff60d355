use xcm::{
    AssetId, AssetInstance, DecodeError, DoubleEncoded, Fungibility, Junction, MultiAsset,
    MultiAssetFilter, MultiLocation, Order, OriginKind, Response, WildFungibility,
    WildMultiAsset, Xcm,
};

fn here() -> MultiLocation {
    MultiLocation::here()
}

fn account(index: u64) -> MultiLocation {
    MultiLocation::new(1, vec![Junction::Parachain(2000), Junction::AccountIndex64(index)])
}

fn units(amount: u128) -> MultiAsset {
    MultiAsset::fungible(AssetId::Concrete(here()), amount)
}

fn round_trip_order(order: Order<()>) {
    let bytes = order.encode();
    let back = Order::<()>::decode(&bytes).unwrap();
    assert_eq!(back, order);
    assert_eq!(back.encode(), bytes);
}

fn round_trip_xcm(message: Xcm<()>) {
    let bytes = message.encode();
    let back = Xcm::<()>::decode(&bytes).unwrap();
    assert_eq!(back, message);
    assert_eq!(back.encode(), bytes);
}

#[test]
fn noop_is_one_zero_byte() {
    assert_eq!(Order::<()>::Noop.encode(), vec![0u8]);
    assert_eq!(Order::<()>::decode(&[0u8]), Ok(Order::Noop));
}

#[test]
fn fresh_buy_execution_round_trips() {
    let order: Order<()> = Order::BuyExecution {
        fees: units(10),
        weight: 1_000,
        debt: 2,
        halt_on_error: true,
        xcm: vec![],
    };
    let bytes = order.encode();
    // variant 7; fees: concrete id `here` (0, 0 parents, no junctions),
    // fungible 10 (0, compact 40); weight and debt in eight bytes each;
    // halt_on_error; an empty list.
    let mut expected = vec![7u8, 0, 0, 0, 0, 40];
    expected.extend_from_slice(&1_000u64.to_le_bytes());
    expected.extend_from_slice(&2u64.to_le_bytes());
    expected.push(1);
    expected.push(0);
    assert_eq!(bytes, expected);
    round_trip_order(order);
}

#[test]
fn every_order_variant_round_trips() {
    let all = MultiAssetFilter::Wild(WildMultiAsset::All);
    let some = MultiAssetFilter::Definite(vec![
        units(70_000),
        MultiAsset::non_fungible(AssetId::Abstract(b"art".to_vec()), AssetInstance::Index(9)),
    ]);
    let of = MultiAssetFilter::Wild(WildMultiAsset::AllOf {
        id: AssetId::Concrete(account(3)),
        fun: WildFungibility::NonFungible,
    });
    round_trip_order(Order::Noop);
    round_trip_order(Order::DepositAsset {
        assets: all,
        max_assets: 3,
        beneficiary: account(1),
    });
    round_trip_order(Order::DepositReserveAsset {
        assets: some,
        max_assets: u32::MAX,
        dest: account(2),
        effects: vec![Order::Noop, Order::Noop],
    });
    round_trip_order(Order::ExchangeAsset {
        give: of,
        receive: vec![units(u128::MAX)],
    });
    round_trip_order(Order::InitiateReserveWithdraw {
        assets: MultiAssetFilter::Wild(WildMultiAsset::All),
        reserve: MultiLocation::new(1, vec![]),
        effects: vec![Order::DepositAsset {
            assets: MultiAssetFilter::Wild(WildMultiAsset::All),
            max_assets: 1,
            beneficiary: account(7),
        }],
    });
    round_trip_order(Order::InitiateTeleport {
        assets: MultiAssetFilter::Wild(WildMultiAsset::All),
        dest: MultiLocation::new(0, vec![Junction::PalletInstance(5), Junction::OnlyChild]),
        effects: vec![],
    });
    round_trip_order(Order::QueryHolding {
        query_id: 1 << 40,
        dest: MultiLocation::new(2, vec![Junction::GeneralIndex(1 << 100)]),
        assets: MultiAssetFilter::Definite(vec![]),
    });
    round_trip_order(Order::BuyExecution {
        fees: units(1),
        weight: u64::MAX,
        debt: 0,
        halt_on_error: false,
        xcm: vec![Xcm::TransferAsset { assets: vec![units(5)], beneficiary: account(4) }],
    });
}

#[test]
fn every_message_variant_round_trips() {
    round_trip_xcm(Xcm::WithdrawAsset { assets: vec![units(1)], effects: vec![Order::Noop] });
    round_trip_xcm(Xcm::ReserveAssetDeposited { assets: vec![units(2)], effects: vec![] });
    round_trip_xcm(Xcm::ReceiveTeleportedAsset { assets: vec![], effects: vec![] });
    round_trip_xcm(Xcm::QueryResponse {
        query_id: 77,
        response: Response::Assets(vec![units(3)]),
    });
    round_trip_xcm(Xcm::TransferAsset { assets: vec![units(4)], beneficiary: account(1) });
    round_trip_xcm(Xcm::TransferReserveAsset {
        assets: vec![units(5)],
        dest: account(2),
        effects: vec![Order::Noop],
    });
    round_trip_xcm(Xcm::Transact {
        origin_type: OriginKind::SovereignAccount,
        require_weight_at_most: 1_000_000,
        call: DoubleEncoded { encoded: vec![1, 2, 3, 4, 5], decoded: None },
    });
}

#[test]
fn decoding_drops_nothing_and_adds_nothing_to_a_call() {
    let message: Xcm<u8> = Xcm::Transact {
        origin_type: OriginKind::Xcm,
        require_weight_at_most: 5,
        call: DoubleEncoded { encoded: vec![9, 9], decoded: Some(3) },
    };
    let bytes = message.encode();
    assert_eq!(bytes, vec![6, 3, 5, 0, 0, 0, 0, 0, 0, 0, 8, 9, 9]);
    let back = Xcm::<u8>::decode(&bytes).unwrap();
    assert_eq!(
        back,
        Xcm::Transact {
            origin_type: OriginKind::Xcm,
            require_weight_at_most: 5,
            call: DoubleEncoded { encoded: vec![9, 9], decoded: None },
        }
    );
}

#[test]
fn compact_integers_take_the_shortest_form() {
    let id = |query_id: u64| {
        Order::<()>::QueryHolding {
            query_id,
            dest: here(),
            assets: MultiAssetFilter::Wild(WildMultiAsset::All),
        }
        .encode()
    };
    // after the variant byte comes the compact query id, then `here` (0, 0)
    // and the filter (1, 0)
    assert_eq!(id(0), vec![6, 0, 0, 0, 1, 0]);
    assert_eq!(id(63), vec![6, 252, 0, 0, 1, 0]);
    assert_eq!(id(64), vec![6, 1, 1, 0, 0, 1, 0]);
    assert_eq!(id(16_383), vec![6, 253, 255, 0, 0, 1, 0]);
    assert_eq!(id(16_384), vec![6, 2, 0, 1, 0, 0, 0, 1, 0]);
    assert_eq!(id((1 << 30) - 1), vec![6, 254, 255, 255, 255, 0, 0, 1, 0]);
    assert_eq!(id(1 << 30), vec![6, 3, 0, 0, 0, 64, 0, 0, 1, 0]);
    assert_eq!(id(1 << 32), vec![6, 7, 0, 0, 0, 0, 1, 0, 0, 1, 0]);
    assert_eq!(
        id(u64::MAX),
        vec![6, 19, 255, 255, 255, 255, 255, 255, 255, 255, 0, 0, 1, 0]
    );
}

#[test]
fn compact_integer_in_a_longer_form_is_refused() {
    // 1 written in two bytes instead of one
    let bytes = vec![6u8, 5, 0, 0, 0, 1, 0];
    assert_eq!(Order::<()>::decode(&bytes), Err(DecodeError::Malformed));
}

#[test]
fn compact_integer_out_of_range_is_refused() {
    // a query id of nine bytes does not fit 64 bits
    let bytes = vec![6u8, 23, 0, 0, 0, 0, 0, 0, 0, 0, 1, 0, 0, 1, 0];
    assert_eq!(Order::<()>::decode(&bytes), Err(DecodeError::Malformed));
}

#[test]
fn unknown_variant_is_refused() {
    assert_eq!(Order::<()>::decode(&[8u8]), Err(DecodeError::Malformed));
    assert_eq!(Xcm::<()>::decode(&[7u8]), Err(DecodeError::Malformed));
    assert_eq!(Order::<()>::decode(&[1u8, 2]), Err(DecodeError::Malformed));
}

#[test]
fn truncated_payload_is_refused() {
    let order: Order<()> = Order::DepositAsset {
        assets: MultiAssetFilter::Definite(vec![units(1_000_000)]),
        max_assets: 1,
        beneficiary: account(1),
    };
    let bytes = order.encode();
    for cut in 0..bytes.len() {
        assert_eq!(Order::<()>::decode(&bytes[..cut]), Err(DecodeError::Malformed));
    }
    assert_eq!(Order::<()>::decode(&[]), Err(DecodeError::Malformed));
}

#[test]
fn length_beyond_the_input_is_refused() {
    // a list of 2^30 orders in a message of a few bytes
    let bytes = vec![0u8, 0, 3, 0, 0, 0, 64, 0];
    assert_eq!(Xcm::<()>::decode(&bytes), Err(DecodeError::Malformed));
}

#[test]
fn trailing_bytes_are_reported() {
    let mut bytes = Order::<()>::Noop.encode();
    bytes.push(0);
    assert_eq!(Order::<()>::decode(&bytes), Err(DecodeError::TrailingBytes));
}

#[test]
fn truth_value_other_than_zero_or_one_is_refused() {
    let order: Order<()> = Order::BuyExecution {
        fees: units(0),
        weight: 0,
        debt: 0,
        halt_on_error: false,
        xcm: vec![],
    };
    let mut bytes = order.encode();
    let at = bytes.len() - 2;
    bytes[at] = 2;
    assert_eq!(Order::<()>::decode(&bytes), Err(DecodeError::Malformed));
}

#[test]
fn conversion_keeps_the_wire_form() {
    let order: Order<u8> = Order::BuyExecution {
        fees: units(3),
        weight: 9,
        debt: 1,
        halt_on_error: true,
        xcm: vec![Xcm::Transact {
            origin_type: OriginKind::Native,
            require_weight_at_most: 4,
            call: DoubleEncoded { encoded: vec![7], decoded: Some(7) },
        }],
    };
    let bytes = order.encode();
    let other: Order<u16> = order.into();
    assert_eq!(other.encode(), bytes);
    let back: Order<u8> = Order::from(other);
    assert_eq!(back.encode(), bytes);
    match back {
        Order::BuyExecution { xcm, .. } => match &xcm[0] {
            Xcm::Transact { call, .. } => assert_eq!(call.decoded, None),
            _ => panic!("a call was expected"),
        },
        _ => panic!("the variant changed"),
    }
}

#[test]
fn fungibility_is_told_apart_on_the_wire() {
    let a = MultiAsset { id: AssetId::Abstract(vec![]), fun: Fungibility::Fungible(1) };
    let b = MultiAsset {
        id: AssetId::Abstract(vec![]),
        fun: Fungibility::NonFungible(AssetInstance::Undefined),
    };
    let wrap = |asset: MultiAsset| {
        Xcm::<()>::TransferAsset { assets: vec![asset], beneficiary: here() }.encode()
    };
    assert_eq!(wrap(a), vec![4, 4, 1, 0, 0, 4, 0, 0]);
    assert_eq!(wrap(b), vec![4, 4, 1, 0, 1, 0, 0, 0]);
}

/// A message in which lists are nested `levels` deep.
fn onion(levels: u32) -> Xcm<()> {
    let mut effects: Vec<Order<()>> = vec![];
    for _ in 1..levels {
        effects = vec![Order::InitiateTeleport {
            assets: MultiAssetFilter::Wild(WildMultiAsset::All),
            dest: here(),
            effects,
        }];
    }
    Xcm::TransferReserveAsset { assets: vec![], dest: here(), effects }
}

#[test]
fn nesting_up_to_the_decoding_depth_is_decoded() {
    let message = onion(xcm::MAX_XCM_DECODE_DEPTH);
    let bytes = message.encode();
    assert_eq!(Xcm::<()>::decode(&bytes), Ok(message));
    round_trip_xcm(onion(1));
    round_trip_xcm(onion(2));
}

#[test]
fn nesting_beyond_the_decoding_depth_is_refused() {
    let bytes = onion(xcm::MAX_XCM_DECODE_DEPTH + 1).encode();
    assert_eq!(Xcm::<()>::decode(&bytes), Err(DecodeError::Malformed));
    // also when bytes follow
    let mut longer = bytes.clone();
    longer.push(0);
    assert_eq!(Xcm::<()>::decode(&longer), Err(DecodeError::Malformed));
}

#[test]
fn programs_nested_to_the_recursion_limit_can_be_decoded() {
    let mut program: Xcm<()> = Xcm::WithdrawAsset { assets: vec![units(0)], effects: vec![] };
    for _ in 0..xcm::MAX_RECURSION_LIMIT + 1 {
        program = Xcm::WithdrawAsset {
            assets: vec![units(0)],
            effects: vec![Order::BuyExecution {
                fees: units(0),
                weight: 0,
                debt: 0,
                halt_on_error: true,
                xcm: vec![program],
            }],
        };
    }
    round_trip_xcm(program);
}

#[test]
fn very_deep_nesting_is_refused_without_being_followed() {
    // the beginning of a message in which each order opens a list of one
    // order, a hundred thousand times over
    let mut bytes = vec![5u8, 0, 0, 0, 4];
    for _ in 0..100_000 {
        bytes.extend_from_slice(&[5, 1, 0, 0, 0, 4]);
    }
    assert_eq!(Xcm::<()>::decode(&bytes), Err(DecodeError::Malformed));
}

#[test]
fn call_keeps_its_bytes_across_call_types() {
    let call: DoubleEncoded<u8> = DoubleEncoded::from_encoded(vec![4, 5, 6]);
    assert_eq!(call.decoded, None);
    let other: DoubleEncoded<u16> = DoubleEncoded::from(DoubleEncoded {
        encoded: vec![4, 5, 6],
        decoded: Some(1u8),
    });
    assert_eq!(other.decoded, None);
    assert_eq!(other.into_encoded(), call.into_encoded());
}

#[test]
fn message_conversion_keeps_the_wire_form() {
    let message: Xcm<u8> = Xcm::WithdrawAsset {
        assets: vec![units(3)],
        effects: vec![Order::BuyExecution {
            fees: units(3),
            weight: 9,
            debt: 1,
            halt_on_error: false,
            xcm: vec![Xcm::Transact {
                origin_type: OriginKind::Superuser,
                require_weight_at_most: 4,
                call: DoubleEncoded { encoded: vec![7, 8], decoded: Some(7) },
            }],
        }],
    };
    let bytes = message.encode();
    let other: Xcm<()> = message.into();
    assert_eq!(other.encode(), bytes);
    assert_eq!(Xcm::<()>::decode(&bytes), Ok(other));
}
