//! End-to-end tests of the pool engine through the router and the pool:
//! pool creation, deposits at steps and rates, ranged deposits,
//! withdrawals, swaps, fee claims and the protocol's cut, with exact
//! fixed-point expectations.

use stoichiometric::asset::AssetContainer;
use stoichiometric::decimal::Decimal;
use stoichiometric::errors::EngineError;
use stoichiometric::pool::Pool;
use stoichiometric::position::Position;
use stoichiometric::router::Router;

const USD: u64 = 1;
const BTC: u64 = 2;
const ETH: u64 = 3;

/// One raw unit is `10^-18`; a whole unit is `10^18` raw.
fn d(units: i64) -> Decimal {
    Decimal::from_int(units)
}

fn raw(v: i128) -> Decimal {
    Decimal::from_raw(v)
}

fn usd(amount: Decimal) -> AssetContainer {
    AssetContainer::with_amount(USD, amount)
}

fn btc(amount: Decimal) -> AssetContainer {
    AssetContainer::with_amount(BTC, amount)
}

/// The grid multiplier of the usd/btc pool (100..100000).
const RATE_STEP: i128 = 1_000105411144423293;
/// Its rate at step 50266 (the seeded current step).
const R1: i128 = 19999_999461836009566200;
/// Its rate at step 50267.
const R2: i128 = 20002_107684667746944000;
/// Its rate at step 30000.
const R30000: i128 = 2362_174466127094589100;
/// Its rate at step 65000.
const R65000: i128 = 94516_856650008924913900;

/// A router with the usd/btc pool seeded with 20000 usd and 1 btc at the
/// current step 50266 (the 1 btc comes straight back). Returns the router
/// and the creator's position.
fn seeded() -> (Router, Position) {
    let mut router = Router::new(USD);
    let (ret_s, ret_o, pos) = router
        .create_pool(usd(d(20000)), btc(d(1)), d(20000), d(100), d(100000))
        .unwrap();
    assert_eq!(ret_s.amount(), d(0));
    assert_eq!(ret_o.amount(), d(1));
    (router, pos)
}

fn state_of(
    router: &Router,
    token: u64,
) -> (Decimal, u16, Decimal, (Decimal, Decimal), Vec<(u16, Vec<Decimal>)>) {
    router.get_pool_state(token).unwrap()
}

fn step_state(
    states: &[(u16, Vec<Decimal>)],
    step: u16,
) -> Vec<Decimal> {
    states
        .iter()
        .find(|e| e.0 == step)
        .expect("step missing from pool state")
        .1
        .clone()
}

fn entry_of(pos: &Position, step: u16) -> (Decimal, Decimal, Decimal) {
    let sp = pos.get_step(step);
    (
        sp.liquidity,
        sp.last_stable_fees_per_liq,
        sp.last_other_fees_per_liq,
    )
}

#[test]
fn test_create_pool() {
    let mut router = Router::new(USD);
    let (_s, _o, _pos) = router
        .create_pool(usd(d(0)), btc(d(0)), d(20000), d(100), d(100000))
        .unwrap();
    let (rate_step, current, min_rate, prot, steps) = state_of(&router, BTC);
    assert_eq!(rate_step, raw(RATE_STEP));
    assert_eq!(current, 50266);
    assert_eq!(min_rate, d(100));
    assert_eq!(prot, (d(0), d(0)));
    assert!(steps.is_empty());
}

#[test]
fn test_create_multiple_pools() {
    let mut router = Router::new(USD);
    router
        .create_pool(usd(d(0)), btc(d(0)), d(20000), d(100), d(100000))
        .unwrap();
    router
        .create_pool(
            usd(d(0)),
            AssetContainer::with_amount(ETH, d(0)),
            d(1700),
            d(10),
            d(20000),
        )
        .unwrap();
    let (rate_step, current, min_rate, _, steps) = state_of(&router, BTC);
    assert_eq!(rate_step, raw(RATE_STEP));
    assert_eq!(current, 50266);
    assert_eq!(min_rate, d(100));
    assert!(steps.is_empty());
    let (rate_step2, current2, min_rate2, _, steps2) = state_of(&router, ETH);
    assert_eq!(rate_step2, raw(1_000115989063276095));
    assert_eq!(current2, 44280);
    assert_eq!(min_rate2, d(10));
    assert!(steps2.is_empty());
}

#[test]
fn test_create_pool_with_stablecoin_fail() {
    let mut router = Router::new(USD);
    let r = router.create_pool(usd(d(1)), usd(d(1)), d(1), raw(100_000_000_000_000), d(2));
    assert_eq!(r.unwrap_err(), EngineError::SameToken);
}

#[test]
fn test_create_pool_no_stablecoin_fail() {
    let mut router = Router::new(USD);
    let r = router.create_pool(
        btc(d(1)),
        AssetContainer::with_amount(ETH, d(1)),
        d(1),
        raw(100_000_000_000_000),
        d(2),
    );
    assert_eq!(r.unwrap_err(), EngineError::NoStablecoin);
}

#[test]
fn test_create_pool_already_exists_fail() {
    let (mut router, _pos) = seeded();
    let r = router.create_pool(usd(d(0)), btc(d(0)), d(20000), d(100), d(100000));
    assert_eq!(r.unwrap_err(), EngineError::PoolAlreadyExists);
}

#[test]
fn test_create_pool_min_rate_zero_fail() {
    let mut router = Router::new(USD);
    let r = router.create_pool(usd(d(0)), btc(d(0)), d(0), d(0), d(0));
    assert_eq!(r.unwrap_err(), EngineError::MinRateNotPositive);
}

#[test]
fn create_pool_max_rate_less_than_min_fail() {
    let mut router = Router::new(USD);
    let r = router.create_pool(usd(d(0)), btc(d(0)), d(0), d(1), raw(500_000_000_000_000_000));
    assert_eq!(r.unwrap_err(), EngineError::MaxRateNotGreater);
}

#[test]
fn create_pool_initial_rate_less_than_min_fail() {
    let mut router = Router::new(USD);
    let r = router.create_pool(
        usd(d(0)),
        btc(d(0)),
        raw(500_000_000_000_000_000),
        d(1),
        d(2),
    );
    assert_eq!(r.unwrap_err(), EngineError::InitialRateOutOfRange);
}

#[test]
fn create_pool_initial_rate_greater_than_max_fail() {
    let mut router = Router::new(USD);
    let r = router.create_pool(usd(d(0)), btc(d(0)), d(3), d(1), d(2));
    assert_eq!(r.unwrap_err(), EngineError::InitialRateOutOfRange);
}

#[test]
fn add_liquidity_at_step_no_position() {
    let (mut router, _pos0) = seeded();
    let (ret_s, ret_o, pos) = router
        .add_liquidity_at_step(usd(d(100)), btc(d(1)), 30000, None)
        .unwrap();
    assert_eq!(ret_s.amount(), d(0));
    assert_eq!(ret_o.amount(), d(1));
    let (_, current, _, _, steps) = state_of(&router, BTC);
    assert_eq!(current, 50266);
    let s30000 = step_state(&steps, 30000);
    assert_eq!(
        s30000,
        vec![d(100), d(0), raw(R30000), d(0), d(0), d(0), d(0)]
    );
    let s50266 = step_state(&steps, 50266);
    assert_eq!(s50266, vec![d(20000), d(0), raw(R1), d(0), d(0), d(0), d(0)]);
    assert_eq!(entry_of(&pos, 30000), (d(100), d(0), d(0)));
}

#[test]
fn add_liquidity_same_step() {
    // two deposits of (100, 1) at the current step combine to a stable
    // reservoir of 200
    let mut router = Router::new(USD);
    let (_s, _o, pos0) = router
        .create_pool(usd(d(0)), btc(d(0)), d(20000), d(100), d(100000))
        .unwrap();
    let (_r1, _r2, pos1) = router
        .add_liquidity_at_step(usd(d(100)), btc(d(1)), 50266, Some(pos0))
        .unwrap();
    assert_eq!(entry_of(&pos1, 50266), (d(100), d(0), d(0)));
    let (_r3, ret_o, pos2) = router
        .add_liquidity_at_step(usd(d(100)), btc(d(1)), 50266, Some(pos1))
        .unwrap();
    assert_eq!(ret_o.amount(), d(1));
    assert_eq!(entry_of(&pos2, 50266), (d(200), d(0), d(0)));
    let (_, _, _, _, steps) = state_of(&router, BTC);
    let s = step_state(&steps, 50266);
    assert_eq!(s[0], d(200));
    assert_eq!(s[1], d(0));
}

#[test]
fn add_liquidity_greater_step() {
    let (mut router, pos0) = seeded();
    let (ret_s, ret_o, pos) = router
        .add_liquidity_at_step(usd(d(100)), btc(d(1)), 65000, Some(pos0))
        .unwrap();
    assert_eq!(ret_s.amount(), d(100));
    assert_eq!(ret_o.amount(), d(0));
    let (_, _, _, _, steps) = state_of(&router, BTC);
    let s65000 = step_state(&steps, 65000);
    assert_eq!(
        s65000,
        vec![d(0), d(1), raw(R65000), d(0), d(0), d(0), d(0)]
    );
    assert_eq!(entry_of(&pos, 65000), (raw(R65000), d(0), d(0)));
    assert_eq!(entry_of(&pos, 50266), (d(20000), d(0), d(0)));
}

#[test]
fn add_liquidity_at_rate_no_position() {
    let (mut router, _pos0) = seeded();
    let (ret_s, ret_o, pos) = router
        .add_liquidity(usd(d(100)), btc(d(1)), raw(2362_175000000000000000), None)
        .unwrap();
    assert_eq!(ret_s.amount(), d(0));
    assert_eq!(ret_o.amount(), d(1));
    let (_, _, _, _, steps) = state_of(&router, BTC);
    let s30000 = step_state(&steps, 30000);
    assert_eq!(s30000[0], d(100));
    assert_eq!(s30000[2], raw(R30000));
    assert_eq!(entry_of(&pos, 30000), (d(100), d(0), d(0)));
}

#[test]
fn add_liquidity_at_steps_no_position() {
    let (mut router, _pos0) = seeded();
    let (ret_s, ret_o, pos) = router
        .add_liquidity_at_steps(usd(d(1000)), btc(d(5)), 51000, 51004, None)
        .unwrap();
    // all five steps sit above the current step, so only btc is consumed
    assert_eq!(ret_s.amount(), d(1000));
    assert_eq!(ret_o.amount(), d(0));
    let (_, _, _, _, steps) = state_of(&router, BTC);
    let expected_rates: [i128; 5] = [
        21608_785087457567164000,
        21611_062894223233053600,
        21613_340941095116873700,
        21615_619228098528522500,
        21617_897755258780497900,
    ];
    for (k, step) in (51000u16..51005).enumerate() {
        let s = step_state(&steps, step);
        assert_eq!(
            s,
            vec![d(0), d(1), raw(expected_rates[k]), d(0), d(0), d(0), d(0)]
        );
        // the minted liquidity of an other-side deposit is its rate value
        assert_eq!(entry_of(&pos, step), (raw(expected_rates[k]), d(0), d(0)));
    }
}

#[test]
fn remove_liquidity_at_step() {
    let (mut router, _pos0) = seeded();
    let (_rs, _ro, pos) = router
        .add_liquidity_at_step(usd(d(100)), btc(d(1)), 30000, None)
        .unwrap();
    let (out_s, out_o, pos2) = router.remove_liquidity_at_step(pos, 30000).unwrap();
    assert_eq!(out_s.amount(), d(100));
    assert_eq!(out_o.amount(), d(0));
    assert_eq!(pos2.step_positions.len(), 0);
    let (_, _, _, _, steps) = state_of(&router, BTC);
    let s30000 = step_state(&steps, 30000);
    assert_eq!(s30000[0], d(0));
    assert_eq!(s30000[1], d(0));
    let s50266 = step_state(&steps, 50266);
    assert_eq!(s50266[0], d(20000));
}

#[test]
fn remove_liquidity_at_rate() {
    let (mut router, pos0) = seeded();
    let (_rs, _ro, pos) = router
        .add_liquidity(
            usd(d(100)),
            btc(d(1)),
            raw(2362_175000000000000000),
            Some(pos0),
        )
        .unwrap();
    let (out_s, out_o, pos2) = router
        .remove_liquidity_at_rate(pos, raw(2362_200000000000000000))
        .unwrap();
    assert_eq!(out_s.amount(), d(100));
    assert_eq!(out_o.amount(), d(0));
    assert_eq!(entry_of(&pos2, 50266), (d(20000), d(0), d(0)));
    assert_eq!(pos2.step_positions.len(), 1);
}

#[test]
fn remove_all_liquidity_from_multiple_pools() {
    let (mut router, pos_btc) = seeded();
    let (_s, _o, pos_eth) = router
        .create_pool(
            usd(d(17000)),
            AssetContainer::with_amount(ETH, d(10)),
            d(1700),
            d(10),
            d(20000),
        )
        .unwrap();
    let (out_s, out_o) = router.remove_all_liquidity(pos_btc).unwrap();
    assert_eq!(out_s.amount(), d(20000));
    assert_eq!(out_o.amount(), d(0));
    let (out_s2, out_o2) = router.remove_all_liquidity(pos_eth).unwrap();
    assert_eq!(out_s2.amount(), d(17000));
    assert_eq!(out_o2.amount(), d(0));
    let (_, _, _, _, steps) = state_of(&router, BTC);
    let s = step_state(&steps, 50266);
    assert_eq!(s[0], d(0));
    assert_eq!(s[1], d(0));
}

#[test]
fn swap_for_stable() {
    let (mut router, _pos0) = seeded();
    let (out_o, out_s) = router.swap(btc(raw(500_000_000_000_000_000)), USD).unwrap();
    // remainder of the btc input, and the stable output
    assert_eq!(out_o.amount(), d(0));
    assert_eq!(out_s.amount(), raw(9969_999731725250768750));
    let (_, current, _, prot, steps) = state_of(&router, BTC);
    assert_eq!(current, 50266);
    assert_eq!(prot.0, d(0));
    assert_eq!(prot.1, raw(250_000_000_000_000));
    let s = step_state(&steps, 50266);
    assert_eq!(
        s,
        vec![
            raw(10030_000268274749231250),
            raw(498_500_000_000_000_000),
            raw(R1),
            d(0),
            raw(62_500_000_000),
            d(0),
            raw(1_250_000_000_000_000),
        ]
    );
}

#[test]
fn swap_for_other() {
    let (mut router, pos0) = seeded();
    let (_rs, _ro, _pos) = router
        .add_liquidity_at_step(usd(d(100)), btc(d(10)), 50267, Some(pos0))
        .unwrap();
    let (out_o, out_s) = router.swap(usd(d(1000)), BTC).unwrap();
    assert_eq!(out_o.amount(), raw(49_844_747_149_533_260));
    assert_eq!(out_s.amount(), raw(2686));
    let (_, current, _, prot, steps) = state_of(&router, BTC);
    assert_eq!(current, 50267);
    assert_eq!(prot.0, raw(499_999_999_999_999_998));
    assert_eq!(prot.1, d(0));
    let s7 = step_state(&steps, 50267);
    assert_eq!(
        s7,
        vec![
            raw(996_999999999999997323),
            raw(9_950155252850466740),
            raw(R2),
            raw(12_498_682_835_890),
            d(0),
            raw(2_499999999999999993),
            d(0),
        ]
    );
    // the seeded step was all stable, traded nothing, and was walked past
    let s6 = step_state(&steps, 50266);
    assert_eq!(s6[0], d(20000));
    assert_eq!(s6[1], d(0));
}

#[test]
fn claim_fees_stable() {
    let (mut router, pos0) = seeded();
    let (_rs, _ro, pos) = router
        .add_liquidity_at_step(usd(d(100)), btc(d(10)), 50267, Some(pos0))
        .unwrap();
    router.swap(usd(d(1000)), BTC).unwrap();
    let (fee_s, fee_o, pos2) = router.claim_fees(pos).unwrap();
    assert_eq!(fee_s.amount(), raw(2_499999999999802372));
    assert_eq!(fee_o.amount(), d(0));
    let (_, _, _, _, steps) = state_of(&router, BTC);
    let s7 = step_state(&steps, 50267);
    // truncation dust stays in the fee vault
    assert_eq!(s7[5], raw(197621));
    assert_eq!(
        entry_of(&pos2, 50267),
        (raw(200021_076846677469440000), raw(12_498_682_835_890), d(0))
    );
    // claiming again with no intervening swap pays zero
    let (fee_s2, fee_o2, _pos3) = router.claim_fees(pos2).unwrap();
    assert_eq!(fee_s2.amount(), d(0));
    assert_eq!(fee_o2.amount(), d(0));
}

#[test]
fn claim_fees_other() {
    let (mut router, pos0) = seeded();
    router.swap(btc(raw(500_000_000_000_000_000)), USD).unwrap();
    let (fee_s, fee_o, pos2) = router.claim_fees(pos0).unwrap();
    assert_eq!(fee_s.amount(), d(0));
    assert_eq!(fee_o.amount(), raw(1_250_000_000_000_000));
    assert_eq!(
        entry_of(&pos2, 50266),
        (d(20000), d(0), raw(62_500_000_000))
    );
}

#[test]
fn claim_protocol_fees() {
    let (mut router, _pos0) = seeded();
    router.swap(btc(raw(500_000_000_000_000_000)), USD).unwrap();
    router.swap(usd(d(9900)), BTC).unwrap();
    let out = router.claim_protocol_fees().unwrap();
    assert_eq!(out.len(), 2);
    assert_eq!(out[0].asset_id(), BTC);
    assert_eq!(out[0].amount(), raw(250_000_000_000_000));
    assert_eq!(out[1].asset_id(), USD);
    assert_eq!(out[1].amount(), raw(4_949999999999999993));
    let (_, current, _, prot, steps) = state_of(&router, BTC);
    assert_eq!(current, 50266);
    assert_eq!(prot, (d(0), d(0)));
    let s = step_state(&steps, 50266);
    assert_eq!(
        s,
        vec![
            raw(19900_300268274749218449),
            raw(4_984_986_720_399_557),
            raw(R1),
            raw(1_237_499_999_999_999),
            raw(62_500_000_000),
            raw(24_749999999999999967),
            raw(1_250_000_000_000_000),
        ]
    );
}

#[test]
fn add_liquidity_to_mixed_step_too_much_other() {
    let (mut router, _pos0) = seeded();
    router.swap(btc(raw(500_000_000_000_000_000)), USD).unwrap();
    let (ret_s, ret_o, pos) = router
        .add_liquidity_at_step(usd(d(100)), btc(d(1)), 50266, None)
        .unwrap();
    assert_eq!(ret_s.amount(), d(0));
    assert_eq!(ret_o.amount(), raw(995_029_910_402_128_569));
    let (_, _, _, _, steps) = state_of(&router, BTC);
    let s = step_state(&steps, 50266);
    assert_eq!(s[0], raw(10130_000268274749231250));
    assert_eq!(s[1], raw(503_470_089_597_871_431));
    assert_eq!(
        entry_of(&pos, 50266),
        (raw(199_401789282705369195), d(0), raw(62_500_000_000))
    );
}

#[test]
fn add_liquidity_to_mixed_step_too_much_stable() {
    let (mut router, _pos0) = seeded();
    router.swap(btc(raw(500_000_000_000_000_000)), USD).unwrap();
    let (ret_s, ret_o, pos) = router
        .add_liquidity_at_step(usd(d(100000)), btc(d(1)), 50266, None)
        .unwrap();
    assert_eq!(ret_s.amount(), raw(79879_638378586260363727));
    assert_eq!(ret_o.amount(), d(0));
    let (_, _, _, _, steps) = state_of(&router, BTC);
    let s = step_state(&steps, 50266);
    assert_eq!(s[0], raw(30150_361889688488867523));
    assert_eq!(s[1], raw(1_498_500_000_000_000_000));
    assert_eq!(
        entry_of(&pos, 50266),
        (raw(40120_361083249749202473), d(0), raw(62_500_000_000))
    );
}

#[test]
fn remove_liquidity_from_mixed_step() {
    let (mut router, _pos0) = seeded();
    router.swap(btc(raw(500_000_000_000_000_000)), USD).unwrap();
    let (_rs, _ro, pos) = router
        .add_liquidity_at_step(usd(d(100000)), btc(d(1)), 50266, None)
        .unwrap();
    let (out_s, out_o, pos2) = router.remove_liquidity_at_step(pos, 50266).unwrap();
    assert_eq!(out_s.amount(), raw(20120_361621413739636273));
    assert_eq!(out_o.amount(), raw(999_999_999_999_999_999));
    assert_eq!(pos2.step_positions.len(), 0);
    let (_, _, _, _, steps) = state_of(&router, BTC);
    let s = step_state(&steps, 50266);
    assert_eq!(s[0], raw(10030_000268274749231250));
    assert_eq!(s[1], raw(498_500_000_000_000_001));
}

#[test]
fn step_at_rate_inverts_rate_at_step() {
    // the grid's round trip: the step of a step's own rate is that step
    let (pool, _s, _o, _pos) = Pool::new(
        usd(d(0)),
        btc(d(0)),
        d(20000),
        d(100),
        d(100000),
    )
    .unwrap();
    for step in [0u16, 1, 30000, 50266, 65000] {
        let rate = pool.rate_at_step(step).unwrap();
        let got = pool.step_at_rate(rate).unwrap();
        // exact up to the floor rounding of the logarithm quotient: the
        // computed rate can land a hair below its own step boundary
        assert!(got == step || got + 1 == step);
    }
}

#[test]
fn swap_with_unknown_asset_fails() {
    let (mut router, _pos0) = seeded();
    let r = router.swap(AssetContainer::with_amount(ETH, d(1)), USD);
    assert_eq!(r.unwrap_err(), EngineError::NoPoolForPair);
}

#[test]
fn container_take_and_put() {
    let mut c = usd(d(5));
    let part = c.take(d(2)).unwrap();
    assert_eq!(part.amount(), d(2));
    assert_eq!(c.amount(), d(3));
    assert_eq!(
        c.take(d(4)).unwrap_err(),
        EngineError::InsufficientFunds
    );
    c.put(part).unwrap();
    assert_eq!(c.amount(), d(5));
    let wrong = btc(d(1));
    assert_eq!(c.put(wrong).unwrap_err(), EngineError::AssetMismatch);
}

#[test]
fn sort_orders_by_id() {
    assert_eq!(stoichiometric::utils::sort(3, 9), (9, 3));
    assert_eq!(stoichiometric::utils::sort(9, 3), (9, 3));
    let (hi, lo) = stoichiometric::utils::sort_buckets(usd(d(1)), btc(d(2)));
    assert_eq!(hi.asset_id(), BTC);
    assert_eq!(lo.asset_id(), USD);
}
