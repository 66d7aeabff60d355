use xcm::{
    All, AllowUnpaidExecutionFrom, AssetId, Assets, Config, ContainsLocation,
    FilterAssetLocation, FixedRateOfConcreteFungible, FixedWeightBounds, Fungibility, Junction,
    LocationAsOrigin, MultiAsset, MultiAssetFilter, MultiLocation, Order, OriginKind, Outcome,
    Response, SendXcm, ShouldExecute, TransactAsset, WeightBounds, WildMultiAsset, Xcm,
    XcmError, XcmExecutor, DispatchCall, DoubleEncoded, WEIGHT_PER_SECOND,
};

/// A ledger of fungible balances, by account and asset.
#[derive(Default)]
struct Ledger {
    balances: Vec<(String, u128)>,
    deposits: usize,
    withdrawals: usize,
}

impl Ledger {
    fn key(who: &MultiLocation, id: &AssetId) -> String {
        format!("{:?}/{:?}", who, id)
    }

    fn balance(&self, who: &MultiLocation, id: &AssetId) -> u128 {
        let key = Ledger::key(who, id);
        self.balances.iter().find(|(k, _)| *k == key).map(|(_, v)| *v).unwrap_or(0)
    }

    fn set(&mut self, who: &MultiLocation, id: &AssetId, amount: u128) {
        let key = Ledger::key(who, id);
        self.balances.retain(|(k, _)| *k != key);
        self.balances.push((key, amount));
    }
}

impl TransactAsset for Ledger {
    fn deposit_asset(&mut self, what: &MultiAsset, who: &MultiLocation) -> Result<(), XcmError> {
        self.deposits += 1;
        match what.fun {
            Fungibility::Fungible(amount) => {
                let now = self.balance(who, &what.id);
                self.set(who, &what.id, now + amount);
                Ok(())
            }
            Fungibility::NonFungible(_) => Err(XcmError::NotDepositable),
        }
    }

    fn withdraw_asset(
        &mut self,
        what: &MultiAsset,
        who: &MultiLocation,
    ) -> Result<Assets, XcmError> {
        self.withdrawals += 1;
        match what.fun {
            Fungibility::Fungible(amount) => {
                let now = self.balance(who, &what.id);
                if now < amount {
                    return Err(XcmError::NotWithdrawable);
                }
                self.set(who, &what.id, now - amount);
                Ok(Assets::from_assets(vec![what.clone()]))
            }
            Fungibility::NonFungible(_) => Err(XcmError::NotWithdrawable),
        }
    }
}

/// A router that keeps what it is given, or refuses everything.
#[derive(Default)]
struct Outbox {
    sent: Vec<(MultiLocation, Xcm<()>)>,
    refuse: bool,
}

impl SendXcm for Outbox {
    fn send_xcm(&mut self, dest: MultiLocation, message: Xcm<()>) -> Result<(), XcmError> {
        if self.refuse {
            return Err(XcmError::UnhandledXcmMessage);
        }
        self.sent.push((dest, message));
        Ok(())
    }
}

/// A filter that trusts every origin with every asset.
struct TrustAll;

impl FilterAssetLocation for TrustAll {
    fn filter_asset_location(&self, _asset: &MultiAsset, _origin: &MultiLocation) -> bool {
        true
    }
}

/// A barrier that admits nothing.
struct Closed;

impl ShouldExecute for Closed {
    fn should_execute<Call>(&self, _origin: &MultiLocation, _message: &Xcm<Call>) -> bool {
        false
    }
}

/// A set that holds one location.
struct Only(MultiLocation);

impl ContainsLocation for Only {
    fn contains(&self, location: &MultiLocation) -> bool {
        *location == self.0
    }
}

/// A weigher that cannot weigh.
struct NoScales;

impl WeightBounds for NoScales {
    fn weight<Call>(&self, _message: &Xcm<Call>) -> Option<u64> {
        None
    }
}

/// A dispatcher that counts calls and uses a fixed weight for each.
#[derive(Default)]
struct Counter {
    calls: Vec<(MultiLocation, Vec<u8>)>,
    uses: u64,
}

impl DispatchCall<MultiLocation> for Counter {
    fn dispatch(
        &mut self,
        origin: MultiLocation,
        call: &Vec<u8>,
        weight_limit: u64,
    ) -> Result<u64, XcmError> {
        if self.uses > weight_limit {
            return Err(XcmError::TooMuchWeightRequired);
        }
        self.calls.push((origin, call.clone()));
        Ok(self.uses)
    }
}

struct Host;

impl Config for Host {
    type Call = ();
    type Origin = MultiLocation;
    type XcmSender = Outbox;
    type AssetTransactor = Ledger;
    type OriginConverter = LocationAsOrigin;
    type CallDispatcher = Counter;
    type IsReserve = TrustAll;
    type IsTeleporter = ();
    type Barrier = AllowUnpaidExecutionFrom<All>;
    type Weigher = FixedWeightBounds;
    type Trader = FixedRateOfConcreteFungible;
    type ResponseHandler = ();
    type AssetExchanger = ();
}

fn x() -> AssetId {
    AssetId::Concrete(MultiLocation::here())
}

fn units(amount: u128) -> MultiAsset {
    MultiAsset::fungible(x(), amount)
}

fn account(index: u64) -> MultiLocation {
    MultiLocation::new(0, vec![Junction::AccountIndex64(index)])
}

fn everything() -> MultiAssetFilter {
    MultiAssetFilter::Wild(WildMultiAsset::All)
}

/// An executor in which one unit of the asset `x` buys one unit of weight.
fn host() -> XcmExecutor<Host> {
    XcmExecutor {
        ancestry: MultiLocation::new(0, vec![Junction::Parachain(1000)]),
        sender: Outbox::default(),
        transactor: Ledger::default(),
        origin_converter: LocationAsOrigin,
        dispatcher: Counter::default(),
        is_reserve: TrustAll,
        is_teleporter: (),
        barrier: AllowUnpaidExecutionFrom(All),
        weigher: FixedWeightBounds { base: 10 },
        trader: FixedRateOfConcreteFungible::new(MultiLocation::here(), WEIGHT_PER_SECOND as u128),
        response_handler: (),
        exchanger: (),
    }
}

#[test]
fn deposit_of_everything_credits_the_beneficiary_and_empties_holding() {
    let mut executor = host();
    let mut holding = Assets::from_assets(vec![units(100)]);
    let order = Order::DepositAsset { assets: everything(), max_assets: 1, beneficiary: account(2) };
    let result = executor.execute_effect(&account(1), &mut holding, order);
    assert_eq!(result, Ok(0));
    assert!(holding.is_empty());
    assert_eq!(executor.transactor.balance(&account(2), &x()), 100);
}

#[test]
fn deposited_reserve_asset_reaches_the_beneficiary() {
    let mut executor = host();
    let message = Xcm::ReserveAssetDeposited {
        assets: vec![units(100)],
        effects: vec![Order::DepositAsset {
            assets: everything(),
            max_assets: 1,
            beneficiary: account(2),
        }],
    };
    let outcome = executor.execute_xcm(account(1), message, 1_000);
    assert_eq!(outcome, Outcome::Complete(20));
    assert_eq!(executor.transactor.balance(&account(2), &x()), 100);
}

#[test]
fn reserve_asset_from_an_untrusted_origin_is_not_accepted() {
    let mut executor = host();
    let message = Xcm::ReceiveTeleportedAsset {
        assets: vec![units(100)],
        effects: vec![Order::DepositAsset {
            assets: everything(),
            max_assets: 1,
            beneficiary: account(2),
        }],
    };
    let outcome = executor.execute_xcm(account(1), message, 1_000);
    assert_eq!(outcome, Outcome::Incomplete(20, XcmError::UntrustedTeleportLocation));
    assert_eq!(executor.transactor.balance(&account(2), &x()), 0);
    assert_eq!(executor.transactor.deposits, 0);
}

#[test]
fn transfer_without_funds_is_incomplete_and_moves_nothing() {
    let mut executor = host();
    executor.transactor.set(&account(1), &x(), 5);
    let message = Xcm::TransferAsset { assets: vec![units(6)], beneficiary: account(2) };
    let outcome = executor.execute_xcm(account(1), message, 1_000);
    assert_eq!(outcome, Outcome::Incomplete(10, XcmError::NotWithdrawable));
    assert_eq!(executor.transactor.balance(&account(1), &x()), 5);
    assert_eq!(executor.transactor.balance(&account(2), &x()), 0);
}

#[test]
fn transfer_with_funds_moves_them() {
    let mut executor = host();
    executor.transactor.set(&account(1), &x(), 50);
    let message = Xcm::TransferAsset { assets: vec![units(20)], beneficiary: account(2) };
    let outcome = executor.execute_xcm(account(1), message, 1_000);
    assert_eq!(outcome, Outcome::Complete(10));
    assert_eq!(executor.transactor.balance(&account(1), &x()), 30);
    assert_eq!(executor.transactor.balance(&account(2), &x()), 20);
}

#[test]
fn underpaid_execution_forfeits_the_fee_and_runs_nothing() {
    let mut executor = host();
    executor.transactor.set(&account(1), &x(), 50);
    let mut holding = Assets::from_assets(vec![units(100)]);
    // the two programs weigh 20, of which 11 are to be bought: that costs
    // 11 units, and 10 are offered
    let order = Order::BuyExecution {
        fees: units(10),
        weight: 11,
        debt: 0,
        halt_on_error: true,
        xcm: vec![
            Xcm::TransferAsset { assets: vec![units(20)], beneficiary: account(2) },
            Xcm::TransferAsset { assets: vec![units(20)], beneficiary: account(2) },
        ],
    };
    let result = executor.execute_effect(&account(1), &mut holding, order);
    assert_eq!(result, Err(XcmError::Underpaid));
    // the fee stays deducted: the trader hands nothing of it back
    assert_eq!(holding.balance_of(&x()), 90);
    // the nested program was not executed
    assert_eq!(executor.transactor.withdrawals, 0);
    assert_eq!(executor.transactor.balance(&account(1), &x()), 50);
    assert_eq!(executor.transactor.balance(&account(2), &x()), 0);
    assert_eq!(executor.trader.weight_sold, 0);
    assert_eq!(executor.trader.units_taken, 0);
}

#[test]
fn underpaid_execution_makes_the_message_incomplete() {
    let mut executor = host();
    let message = Xcm::ReserveAssetDeposited {
        assets: vec![units(100)],
        effects: vec![
            Order::BuyExecution {
                fees: units(10),
                weight: 11,
                debt: 1,
                halt_on_error: true,
                xcm: vec![Xcm::QueryResponse {
                    query_id: 0,
                    response: Response::Assets(vec![]),
                }],
            },
            Order::DepositAsset { assets: everything(), max_assets: 1, beneficiary: account(2) },
        ],
    };
    let outcome = executor.execute_xcm(account(1), message, 1_000);
    // the program weighs 10; with the debt, 11 are owed
    assert_eq!(outcome, Outcome::Incomplete(40, XcmError::Underpaid));
    assert_eq!(executor.transactor.balance(&account(2), &x()), 0);
}

#[test]
fn paid_execution_returns_the_change_and_runs_the_programs() {
    let mut executor = host();
    executor.transactor.set(&account(1), &x(), 50);
    let mut holding = Assets::from_assets(vec![units(100)]);
    let order = Order::BuyExecution {
        fees: units(10),
        weight: 6,
        debt: 1,
        halt_on_error: true,
        xcm: vec![Xcm::TransferAsset { assets: vec![units(20)], beneficiary: account(2) }],
    };
    let result = executor.execute_effect(&account(1), &mut holding, order);
    assert_eq!(result, Ok(0));
    // the program weighs 10, of which 6 are bought; with the debt, seven
    // units of weight cost seven units, and three of the ten come back
    assert_eq!(holding.balance_of(&x()), 93);
    assert_eq!(executor.trader.weight_sold, 7);
    assert_eq!(executor.trader.units_taken, 7);
    assert_eq!(executor.transactor.balance(&account(2), &x()), 20);
}

#[test]
fn execution_of_nothing_costs_the_debt_only() {
    let mut executor = host();
    let mut holding = Assets::from_assets(vec![units(100)]);
    let order = Order::BuyExecution {
        fees: units(10),
        weight: 1_000,
        debt: 4,
        halt_on_error: true,
        xcm: vec![],
    };
    assert_eq!(executor.execute_effect(&account(1), &mut holding, order), Ok(0));
    assert_eq!(holding.balance_of(&x()), 96);
    assert_eq!(executor.trader.weight_sold, 4);
}

#[test]
fn programs_that_cannot_be_weighed_are_not_bought() {
    let mut executor = XcmExecutor::<Unweighable> {
        ancestry: MultiLocation::here(),
        sender: Outbox::default(),
        transactor: Ledger::default(),
        origin_converter: LocationAsOrigin,
        dispatcher: (),
        is_reserve: (),
        is_teleporter: (),
        barrier: AllowUnpaidExecutionFrom(Only(account(1))),
        weigher: NoScales,
        trader: FixedRateOfConcreteFungible::new(MultiLocation::here(), 0),
        response_handler: (),
        exchanger: (),
    };
    let mut holding = Assets::from_assets(vec![units(100)]);
    let order = Order::BuyExecution {
        fees: units(10),
        weight: 1,
        debt: 0,
        halt_on_error: true,
        xcm: vec![Xcm::QueryResponse { query_id: 0, response: Response::Assets(vec![]) }],
    };
    let result = executor.execute_effect(&account(1), &mut holding, order);
    assert_eq!(result, Err(XcmError::WeightNotComputable));
    assert_eq!(holding.balance_of(&x()), 100);
}

#[test]
fn fee_that_is_not_held_cannot_be_paid() {
    let mut executor = host();
    let mut holding = Assets::from_assets(vec![units(5)]);
    let order = Order::BuyExecution {
        fees: units(10),
        weight: 1,
        debt: 0,
        halt_on_error: true,
        xcm: vec![],
    };
    let result = executor.execute_effect(&account(1), &mut holding, order);
    assert_eq!(result, Err(XcmError::NotWithdrawable));
    assert_eq!(holding.balance_of(&x()), 5);
}

#[test]
fn weight_and_debt_that_overflow_are_refused() {
    let mut executor = host();
    let mut holding = Assets::from_assets(vec![units(5)]);
    let order = Order::BuyExecution {
        fees: units(1),
        weight: u64::MAX,
        debt: 1,
        halt_on_error: true,
        xcm: vec![Xcm::Transact {
            origin_type: OriginKind::Xcm,
            require_weight_at_most: u64::MAX,
            call: DoubleEncoded { encoded: vec![], decoded: None },
        }],
    };
    let result = executor.execute_effect(&account(1), &mut holding, order);
    assert_eq!(result, Err(XcmError::Overflow));
    assert_eq!(holding.balance_of(&x()), 5);
}

#[test]
fn failing_program_is_passed_over_unless_it_halts() {
    let program = || Xcm::TransferAsset { assets: vec![units(20)], beneficiary: account(2) };
    let order = |halt_on_error: bool| Order::BuyExecution {
        fees: units(0),
        weight: 0,
        debt: 0,
        halt_on_error,
        xcm: vec![program(), program()],
    };
    // the account holds enough for the second transfer only after a deposit
    let mut executor = host();
    executor.transactor.set(&account(1), &x(), 20);
    let mut holding = Assets::new();
    assert_eq!(executor.execute_effect(&account(1), &mut holding, order(true)), Err(XcmError::NotWithdrawable));
    assert_eq!(executor.transactor.balance(&account(2), &x()), 20);

    let mut executor = host();
    executor.transactor.set(&account(1), &x(), 20);
    assert_eq!(executor.execute_effect(&account(1), &mut holding, order(false)), Ok(0));
    assert_eq!(executor.transactor.balance(&account(2), &x()), 20);
    assert_eq!(executor.transactor.withdrawals, 2);
}

#[test]
fn barrier_refuses_before_anything_happens() {
    let mut executor = XcmExecutor::<Shut> {
        ancestry: MultiLocation::here(),
        sender: Outbox::default(),
        transactor: Ledger::default(),
        origin_converter: LocationAsOrigin,
        dispatcher: (),
        is_reserve: TrustAll,
        is_teleporter: (),
        barrier: Closed,
        weigher: FixedWeightBounds { base: 10 },
        trader: FixedRateOfConcreteFungible::new(MultiLocation::here(), 0),
        response_handler: (),
        exchanger: (),
    };
    executor.transactor.set(&account(1), &x(), 50);
    let message = Xcm::TransferAsset { assets: vec![units(20)], beneficiary: account(2) };
    let outcome = executor.execute_xcm(account(1), message, 1_000);
    assert_eq!(outcome, Outcome::Error(XcmError::Barrier));
    assert_eq!(executor.transactor.withdrawals, 0);
    assert_eq!(executor.transactor.deposits, 0);
    assert!(executor.sender.sent.is_empty());
}

struct Shut;

impl Config for Shut {
    type Call = ();
    type Origin = MultiLocation;
    type XcmSender = Outbox;
    type AssetTransactor = Ledger;
    type OriginConverter = LocationAsOrigin;
    type CallDispatcher = ();
    type IsReserve = TrustAll;
    type IsTeleporter = ();
    type Barrier = Closed;
    type Weigher = FixedWeightBounds;
    type Trader = FixedRateOfConcreteFungible;
    type ResponseHandler = ();
    type AssetExchanger = ();
}

struct Unweighable;

impl Config for Unweighable {
    type Call = ();
    type Origin = MultiLocation;
    type XcmSender = Outbox;
    type AssetTransactor = Ledger;
    type OriginConverter = LocationAsOrigin;
    type CallDispatcher = ();
    type IsReserve = ();
    type IsTeleporter = ();
    type Barrier = AllowUnpaidExecutionFrom<Only>;
    type Weigher = NoScales;
    type Trader = FixedRateOfConcreteFungible;
    type ResponseHandler = ();
    type AssetExchanger = ();
}

#[test]
fn message_that_cannot_be_weighed_is_refused() {
    let mut executor = XcmExecutor::<Unweighable> {
        ancestry: MultiLocation::here(),
        sender: Outbox::default(),
        transactor: Ledger::default(),
        origin_converter: LocationAsOrigin,
        dispatcher: (),
        is_reserve: (),
        is_teleporter: (),
        barrier: AllowUnpaidExecutionFrom(Only(account(1))),
        weigher: NoScales,
        trader: FixedRateOfConcreteFungible::new(MultiLocation::here(), 0),
        response_handler: (),
        exchanger: (),
    };
    let message = Xcm::TransferAsset { assets: vec![], beneficiary: account(2) };
    let outcome = executor.execute_xcm(account(1), message, 1_000);
    assert_eq!(outcome, Outcome::Error(XcmError::WeightNotComputable));
}

#[test]
fn barrier_admits_only_the_origins_of_its_set() {
    let barrier = AllowUnpaidExecutionFrom(Only(account(1)));
    let message: Xcm<()> = Xcm::TransferAsset { assets: vec![], beneficiary: account(2) };
    assert!(barrier.should_execute(&account(1), &message));
    assert!(!barrier.should_execute(&account(2), &message));
    assert!(AllowUnpaidExecutionFrom(All).should_execute(&account(2), &message));
}

#[test]
fn reserve_transfer_deposits_and_notifies_the_destination() {
    let mut executor = host();
    executor.transactor.set(&account(1), &x(), 50);
    let dest = MultiLocation::new(1, vec![Junction::Parachain(2000)]);
    let message = Xcm::TransferReserveAsset {
        assets: vec![units(20)],
        dest: MultiLocation::new(1, vec![Junction::Parachain(2000)]),
        effects: vec![Order::Noop],
    };
    let outcome = executor.execute_xcm(account(1), message, 1_000);
    assert_eq!(outcome, Outcome::Complete(10));
    assert_eq!(executor.transactor.balance(&account(1), &x()), 30);
    assert_eq!(executor.transactor.balance(&dest, &x()), 20);
    // seen from the destination, the asset of this system lies one level
    // up and then at this system's own place
    let seen = MultiAsset::fungible(
        AssetId::Concrete(MultiLocation::new(1, vec![Junction::Parachain(1000)])),
        20,
    );
    assert_eq!(
        executor.sender.sent,
        vec![(
            dest,
            Xcm::ReserveAssetDeposited { assets: vec![seen], effects: vec![Order::Noop] }
        )]
    );
}

#[test]
fn router_refusal_is_reported_as_send_failed() {
    let mut executor = host();
    executor.sender.refuse = true;
    let mut holding = Assets::from_assets(vec![units(100)]);
    let order = Order::InitiateTeleport {
        assets: everything(),
        dest: MultiLocation::new(1, vec![]),
        effects: vec![],
    };
    let result = executor.execute_effect(&account(1), &mut holding, order);
    assert_eq!(result, Err(XcmError::SendFailed));
    assert!(holding.is_empty());
}

#[test]
fn query_holding_reports_the_lesser_and_keeps_holding() {
    let mut executor = host();
    let mut holding = Assets::from_assets(vec![units(100)]);
    let order = Order::QueryHolding {
        query_id: 5,
        dest: MultiLocation::new(0, vec![Junction::AccountIndex64(9)]),
        assets: MultiAssetFilter::Definite(vec![units(150)]),
    };
    let result = executor.execute_effect(&account(1), &mut holding, order);
    assert_eq!(result, Ok(0));
    assert_eq!(holding.balance_of(&x()), 100);
    let seen = MultiAsset::fungible(AssetId::Concrete(MultiLocation::new(1, vec![])), 100);
    assert_eq!(
        executor.sender.sent,
        vec![(
            account(9),
            Xcm::QueryResponse { query_id: 5, response: Response::Assets(vec![seen]) }
        )]
    );
}

#[test]
fn exchange_without_an_exchange_fails_and_loses_nothing() {
    let mut executor = host();
    let mut holding = Assets::from_assets(vec![units(100)]);
    let other = MultiAsset::fungible(AssetId::Abstract(b"y".to_vec()), 1);
    let order = Order::ExchangeAsset {
        give: MultiAssetFilter::Definite(vec![units(40)]),
        receive: vec![other],
    };
    let result = executor.execute_effect(&account(1), &mut holding, order);
    assert_eq!(result, Err(XcmError::ExchangeFailed));
    assert_eq!(holding.balance_of(&x()), 100);
}

#[test]
fn transact_dispatches_the_call_and_frees_unused_weight() {
    let mut executor = host();
    executor.dispatcher.uses = 30;
    let message = Xcm::Transact {
        origin_type: OriginKind::Xcm,
        require_weight_at_most: 100,
        call: DoubleEncoded { encoded: vec![1, 2, 3], decoded: None },
    };
    let outcome = executor.execute_xcm(account(1), message, 1_000);
    // 10 for the instruction and 100 for the call, of which 70 were not used
    assert_eq!(outcome, Outcome::Complete(40));
    assert_eq!(executor.dispatcher.calls, vec![(account(1), vec![1, 2, 3])]);
}

#[test]
fn transact_in_a_capacity_that_the_origin_lacks_is_refused() {
    let mut executor = host();
    let message = Xcm::Transact {
        origin_type: OriginKind::Superuser,
        require_weight_at_most: 100,
        call: DoubleEncoded { encoded: vec![1], decoded: None },
    };
    let outcome = executor.execute_xcm(account(1), message, 1_000);
    assert_eq!(outcome, Outcome::Incomplete(110, XcmError::BadOrigin));
    assert!(executor.dispatcher.calls.is_empty());
}

#[test]
fn order_beyond_the_recursion_limit_touches_nothing() {
    // nine levels of programs below the message itself
    let mut program: Xcm<()> = Xcm::TransferAsset { assets: vec![units(1)], beneficiary: account(2) };
    for _ in 0..9 {
        program = Xcm::ReserveAssetDeposited {
            assets: vec![],
            effects: vec![Order::BuyExecution {
                fees: units(0),
                weight: 0,
                debt: 0,
                halt_on_error: true,
                xcm: vec![program],
            }],
        };
    }
    let mut executor = host();
    executor.transactor.set(&account(1), &x(), 50);
    let outcome = executor.execute_xcm(account(1), program, 1_000_000);
    assert!(matches!(outcome, Outcome::Incomplete(_, XcmError::RecursionLimitReached)));
    assert_eq!(executor.transactor.withdrawals, 0);
    assert_eq!(executor.transactor.balance(&account(1), &x()), 50);
}

#[test]
fn program_at_the_recursion_limit_is_executed() {
    let mut program: Xcm<()> = Xcm::TransferAsset { assets: vec![units(1)], beneficiary: account(2) };
    for _ in 0..8 {
        program = Xcm::ReserveAssetDeposited {
            assets: vec![],
            effects: vec![Order::BuyExecution {
                fees: units(0),
                weight: 0,
                debt: 0,
                halt_on_error: true,
                xcm: vec![program],
            }],
        };
    }
    let mut executor = host();
    executor.transactor.set(&account(1), &x(), 50);
    let outcome = executor.execute_xcm(account(1), program, 1_000_000);
    assert!(matches!(outcome, Outcome::Complete(_)));
    assert_eq!(executor.transactor.balance(&account(2), &x()), 1);
}

#[test]
fn deposit_that_the_ledger_refuses_is_reported() {
    let mut executor = host();
    let piece = MultiAsset::non_fungible(x(), xcm::AssetInstance::Index(1));
    let mut holding = Assets::from_assets(vec![units(5), piece]);
    let order = Order::DepositAsset { assets: everything(), max_assets: 2, beneficiary: account(2) };
    let result = executor.execute_effect(&account(1), &mut holding, order);
    assert_eq!(result, Err(XcmError::NotDepositable));
    // what was deposited before the failure stays deposited
    assert_eq!(executor.transactor.balance(&account(2), &x()), 5);
    assert!(holding.is_empty());
}

#[test]
fn deposit_takes_no_more_assets_than_allowed() {
    let mut executor = host();
    let other = AssetId::Abstract(b"y".to_vec());
    let mut holding =
        Assets::from_assets(vec![units(5), MultiAsset::fungible(other.clone(), 7)]);
    let order = Order::DepositAsset { assets: everything(), max_assets: 1, beneficiary: account(2) };
    assert_eq!(executor.execute_effect(&account(1), &mut holding, order), Ok(0));
    assert_eq!(executor.transactor.balance(&account(2), &x()), 5);
    assert_eq!(executor.transactor.balance(&account(2), &other), 0);
    assert_eq!(holding.balance_of(&other), 7);
}

#[test]
fn call_is_refused_where_there_is_no_dispatcher() {
    let mut executor = xcm::XcmConfig::executor();
    let message = Xcm::Transact {
        origin_type: OriginKind::Xcm,
        require_weight_at_most: 100,
        call: DoubleEncoded { encoded: vec![1], decoded: None },
    };
    let outcome = executor.execute_xcm(account(1), message, 10_000);
    assert_eq!(outcome, Outcome::Incomplete(1_100, XcmError::UnhandledXcmMessage));
}

#[test]
fn reserve_asset_is_not_accepted_where_nobody_is_trusted() {
    let mut executor = xcm::XcmConfig::executor();
    let message = Xcm::ReserveAssetDeposited { assets: vec![units(1)], effects: vec![] };
    let outcome = executor.execute_xcm(account(1), message, 10_000);
    assert_eq!(outcome, Outcome::Incomplete(1_000, XcmError::UntrustedReserveLocation));
}

#[test]
fn call_that_needs_more_weight_than_allowed_is_refused() {
    let mut executor = host();
    executor.dispatcher.uses = 101;
    let message = Xcm::Transact {
        origin_type: OriginKind::Xcm,
        require_weight_at_most: 100,
        call: DoubleEncoded { encoded: vec![1], decoded: None },
    };
    let outcome = executor.execute_xcm(account(1), message, 1_000);
    assert_eq!(outcome, Outcome::Incomplete(110, XcmError::TooMuchWeightRequired));
}

#[test]
fn destination_too_deep_to_lead_back_from_is_refused() {
    let mut executor = host();
    let mut holding = Assets::from_assets(vec![units(5)]);
    let order = Order::InitiateReserveWithdraw {
        assets: everything(),
        reserve: MultiLocation::new(0, vec![Junction::OnlyChild; 256]),
        effects: vec![],
    };
    let result = executor.execute_effect(&account(1), &mut holding, order);
    assert_eq!(result, Err(XcmError::MultiLocationFull));
    assert!(executor.sender.sent.is_empty());
}

#[test]
fn price_that_cannot_be_computed_hands_the_payment_back() {
    let mut executor = host();
    executor.trader = FixedRateOfConcreteFungible::new(MultiLocation::here(), u128::MAX);
    let mut holding = Assets::from_assets(vec![units(100)]);
    let order = Order::BuyExecution {
        fees: units(10),
        weight: 2,
        debt: 0,
        halt_on_error: true,
        xcm: vec![Xcm::QueryResponse { query_id: 0, response: Response::Assets(vec![]) }],
    };
    let result = executor.execute_effect(&account(1), &mut holding, order);
    assert_eq!(result, Err(XcmError::Overflow));
    assert_eq!(holding.balance_of(&x()), 100);
}

#[test]
fn answer_to_a_query_is_taken_note_of() {
    let mut executor = host();
    let message = Xcm::QueryResponse { query_id: 1, response: Response::Assets(vec![units(1)]) };
    let outcome = executor.execute_xcm(account(1), message, 1_000);
    assert_eq!(outcome, Outcome::Complete(10));
}

#[test]
fn order_that_fails_ends_the_list_of_orders() {
    let mut executor = host();
    executor.sender.refuse = true;
    let message = Xcm::ReserveAssetDeposited {
        assets: vec![units(100)],
        effects: vec![
            Order::DepositAsset {
                assets: MultiAssetFilter::Definite(vec![units(30)]),
                max_assets: 1,
                beneficiary: account(2),
            },
            Order::InitiateTeleport {
                assets: MultiAssetFilter::Definite(vec![units(30)]),
                dest: MultiLocation::new(1, vec![]),
                effects: vec![],
            },
            Order::DepositAsset { assets: everything(), max_assets: 1, beneficiary: account(3) },
        ],
    };
    let outcome = executor.execute_xcm(account(1), message, 1_000);
    assert_eq!(outcome, Outcome::Incomplete(40, XcmError::SendFailed));
    // the first order is not undone, the third is not carried out
    assert_eq!(executor.transactor.balance(&account(2), &x()), 30);
    assert_eq!(executor.transactor.balance(&account(3), &x()), 0);
}

#[test]
fn weigher_counts_orders_and_nested_programs() {
    let weigher = FixedWeightBounds { base: 7 };
    let inner: Xcm<()> = Xcm::Transact {
        origin_type: OriginKind::Native,
        require_weight_at_most: 100,
        call: DoubleEncoded { encoded: vec![], decoded: None },
    };
    let message: Xcm<()> = Xcm::WithdrawAsset {
        assets: vec![units(1), units(2)],
        effects: vec![
            Order::Noop,
            Order::DepositReserveAsset {
                assets: everything(),
                max_assets: 1,
                dest: account(1),
                // orders for the destination weigh nothing here
                effects: vec![Order::Noop, Order::Noop],
            },
            Order::BuyExecution {
                fees: units(0),
                weight: 0,
                debt: 0,
                halt_on_error: false,
                xcm: vec![inner],
            },
        ],
    };
    // the message, three orders, and a call of 7 + 100
    assert_eq!(weigher.weight(&message), Some(7 + 3 * 7 + 107));
    let heavy: Xcm<()> = Xcm::Transact {
        origin_type: OriginKind::Native,
        require_weight_at_most: u64::MAX,
        call: DoubleEncoded { encoded: vec![], decoded: None },
    };
    assert_eq!(weigher.weight(&heavy), Some(u64::MAX));
}

#[test]
fn encoded_message_is_decoded_and_executed() {
    let mut executor = host();
    executor.transactor.set(&account(1), &x(), 50);
    let message: Xcm<()> =
        Xcm::TransferAsset { assets: vec![units(20)], beneficiary: account(2) };
    let bytes = message.encode();
    assert_eq!(executor.execute_encoded(account(1), &bytes, 1_000), Outcome::Complete(10));
    assert_eq!(executor.transactor.balance(&account(2), &x()), 20);
}

#[test]
fn bytes_that_are_no_message_are_refused_without_effect() {
    let mut executor = host();
    executor.transactor.set(&account(1), &x(), 50);
    let message: Xcm<()> =
        Xcm::TransferAsset { assets: vec![units(20)], beneficiary: account(2) };
    let mut bytes = message.encode();
    bytes.push(0);
    let refused = Outcome::Error(XcmError::UnhandledXcmMessage);
    assert_eq!(executor.execute_encoded(account(1), &bytes, 1_000), refused);
    assert_eq!(executor.execute_encoded(account(1), &bytes[..3], 1_000), refused);
    assert_eq!(executor.execute_encoded(account(1), &[9], 1_000), refused);
    assert_eq!(executor.transactor.withdrawals, 0);
    assert_eq!(executor.transactor.balance(&account(1), &x()), 50);
}

#[test]
fn withdrawn_assets_pass_through_holding_to_the_beneficiary() {
    let mut executor = host();
    executor.transactor.set(&account(1), &x(), 50);
    let message = Xcm::WithdrawAsset {
        assets: vec![units(20), units(10)],
        effects: vec![
            Order::Noop,
            Order::DepositAsset {
                assets: MultiAssetFilter::Definite(vec![units(25)]),
                max_assets: 1,
                beneficiary: account(2),
            },
        ],
    };
    let outcome = executor.execute_xcm(account(1), message, 1_000);
    assert_eq!(outcome, Outcome::Complete(30));
    assert_eq!(executor.transactor.balance(&account(1), &x()), 20);
    // what stays in holding is dropped when the execution ends
    assert_eq!(executor.transactor.balance(&account(2), &x()), 25);
}

#[test]
fn withdrawal_that_fails_stops_the_message() {
    let mut executor = host();
    executor.transactor.set(&account(1), &x(), 25);
    let message = Xcm::WithdrawAsset {
        assets: vec![units(20), units(10)],
        effects: vec![Order::DepositAsset {
            assets: everything(),
            max_assets: 1,
            beneficiary: account(2),
        }],
    };
    let outcome = executor.execute_xcm(account(1), message, 1_000);
    assert_eq!(outcome, Outcome::Incomplete(20, XcmError::NotWithdrawable));
    // the first withdrawal is not undone
    assert_eq!(executor.transactor.balance(&account(1), &x()), 5);
    assert_eq!(executor.transactor.balance(&account(2), &x()), 0);
}

#[test]
fn deposit_for_a_reserve_is_deposited_and_announced() {
    let mut executor = host();
    let mut holding = Assets::from_assets(vec![units(100)]);
    let dest = MultiLocation::new(1, vec![Junction::Parachain(2000)]);
    let order = Order::DepositReserveAsset {
        assets: MultiAssetFilter::Definite(vec![units(40)]),
        max_assets: 1,
        dest: MultiLocation::new(1, vec![Junction::Parachain(2000)]),
        effects: vec![Order::Noop],
    };
    assert_eq!(executor.execute_effect(&account(1), &mut holding, order), Ok(0));
    assert_eq!(holding.balance_of(&x()), 60);
    assert_eq!(executor.transactor.balance(&dest, &x()), 40);
    let seen = MultiAsset::fungible(
        AssetId::Concrete(MultiLocation::new(1, vec![Junction::Parachain(1000)])),
        40,
    );
    assert_eq!(
        executor.sender.sent,
        vec![(
            dest,
            Xcm::ReserveAssetDeposited { assets: vec![seen], effects: vec![Order::Noop] }
        )]
    );
}

#[test]
fn reserve_withdrawal_and_teleport_send_what_was_taken() {
    let mut executor = host();
    let mut holding = Assets::from_assets(vec![units(100)]);
    let up = || MultiLocation::new(1, vec![]);
    let order = Order::InitiateReserveWithdraw {
        assets: MultiAssetFilter::Definite(vec![units(150)]),
        reserve: up(),
        effects: vec![Order::Noop],
    };
    assert_eq!(executor.execute_effect(&account(1), &mut holding, order), Ok(0));
    assert!(holding.is_empty());
    let mut holding = Assets::from_assets(vec![units(7)]);
    let order = Order::InitiateTeleport {
        assets: everything(),
        dest: up(),
        effects: vec![],
    };
    assert_eq!(executor.execute_effect(&account(1), &mut holding, order), Ok(0));
    assert!(holding.is_empty());
    // seen from one level up, this system is the chain 1000
    let seen = |amount| {
        MultiAsset::fungible(
            AssetId::Concrete(MultiLocation::new(0, vec![Junction::Parachain(1000)])),
            amount,
        )
    };
    assert_eq!(
        executor.sender.sent,
        vec![
            (up(), Xcm::WithdrawAsset { assets: vec![seen(100)], effects: vec![Order::Noop] }),
            (up(), Xcm::ReceiveTeleportedAsset { assets: vec![seen(7)], effects: vec![] }),
        ]
    );
}

/// An exchange that gives two units of `y` for every unit of `x`.
struct Doubling;

impl xcm::AssetExchange for Doubling {
    fn exchange_asset(
        &mut self,
        _origin: &MultiLocation,
        give: Assets,
        _want: &Vec<MultiAsset>,
    ) -> Assets {
        let y = AssetId::Abstract(b"y".to_vec());
        Assets::from_assets(vec![MultiAsset::fungible(y, 2 * give.balance_of(&x()))])
    }
}

struct Market;

impl Config for Market {
    type Call = ();
    type Origin = MultiLocation;
    type XcmSender = Outbox;
    type AssetTransactor = Ledger;
    type OriginConverter = LocationAsOrigin;
    type CallDispatcher = ();
    type IsReserve = ();
    type IsTeleporter = TrustAll;
    type Barrier = AllowUnpaidExecutionFrom<All>;
    type Weigher = FixedWeightBounds;
    type Trader = FixedRateOfConcreteFungible;
    type ResponseHandler = ();
    type AssetExchanger = Doubling;
}

fn market() -> XcmExecutor<Market> {
    XcmExecutor {
        ancestry: MultiLocation::here(),
        sender: Outbox::default(),
        transactor: Ledger::default(),
        origin_converter: LocationAsOrigin,
        dispatcher: (),
        is_reserve: (),
        is_teleporter: TrustAll,
        barrier: AllowUnpaidExecutionFrom(All),
        weigher: FixedWeightBounds { base: 1 },
        trader: FixedRateOfConcreteFungible::new(MultiLocation::here(), 0),
        response_handler: (),
        exchanger: Doubling,
    }
}

#[test]
fn exchange_replaces_what_was_given_by_what_was_received() {
    let y = AssetId::Abstract(b"y".to_vec());
    let mut executor = market();
    let mut holding = Assets::from_assets(vec![units(100)]);
    let order = Order::ExchangeAsset {
        give: MultiAssetFilter::Definite(vec![units(40)]),
        receive: vec![MultiAsset::fungible(y.clone(), 80)],
    };
    assert_eq!(executor.execute_effect(&account(1), &mut holding, order), Ok(0));
    assert_eq!(holding.balance_of(&x()), 60);
    assert_eq!(holding.balance_of(&y), 80);
}

#[test]
fn exchange_that_returns_too_little_fails_and_keeps_what_was_returned() {
    let y = AssetId::Abstract(b"y".to_vec());
    let mut executor = market();
    let mut holding = Assets::from_assets(vec![units(100)]);
    let order = Order::ExchangeAsset {
        give: MultiAssetFilter::Definite(vec![units(40)]),
        receive: vec![MultiAsset::fungible(y.clone(), 81)],
    };
    let result = executor.execute_effect(&account(1), &mut holding, order);
    assert_eq!(result, Err(XcmError::ExchangeFailed));
    assert_eq!(holding.balance_of(&x()), 60);
    assert_eq!(holding.balance_of(&y), 80);
}

#[test]
fn exchange_of_what_is_not_held_is_not_attempted() {
    let mut executor = market();
    let mut holding = Assets::from_assets(vec![units(10)]);
    let order = Order::ExchangeAsset {
        give: MultiAssetFilter::Definite(vec![units(40)]),
        receive: vec![],
    };
    let result = executor.execute_effect(&account(1), &mut holding, order);
    assert_eq!(result, Err(XcmError::NotWithdrawable));
    assert_eq!(holding.balance_of(&x()), 10);
}

#[test]
fn teleported_asset_from_a_trusted_origin_is_accepted() {
    let mut executor = market();
    let message = Xcm::ReceiveTeleportedAsset {
        assets: vec![units(100)],
        effects: vec![Order::DepositAsset {
            assets: everything(),
            max_assets: 1,
            beneficiary: account(2),
        }],
    };
    assert_eq!(executor.execute_xcm(account(1), message, 1_000), Outcome::Complete(2));
    assert_eq!(executor.transactor.balance(&account(2), &x()), 100);
}
