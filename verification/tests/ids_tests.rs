//! Identifier derivation and canonical ordering.

use amm_core::ids::{
    get_asset_id_in, get_contract_asset_id, get_lp_asset_id, get_pool_sub_id, order_sub_ids,
    order_token_ids, AssetId, ContractId, PoolId, SubId,
};
use amm_core::wallet::WalletAssetConfiguration;
use amm_core::amm::lp_asset_info;

#[test]
fn contract_asset_id_matches_reference_digest() {
    // sha256 of the contract identity's 32 bytes followed by the
    // sub-identifier's, both little-endian halves, low half first
    let contract = ContractId { hi: 7, lo: 9 };
    let sub = SubId { hi: 0, lo: 1 };
    let a = get_contract_asset_id(&sub, &contract);
    assert_eq!(a.hi, 179525841712728388163413957598382734842);
    assert_eq!(a.lo, 262484953226492507837473077083076194355);
}

#[test]
fn contract_asset_id_depends_on_sub_id() {
    let contract = ContractId { hi: 7, lo: 9 };
    let a = get_contract_asset_id(&SubId { hi: 0, lo: 1 }, &contract);
    let b = get_contract_asset_id(&SubId { hi: 0, lo: 2 }, &contract);
    assert_ne!(a, b);
    assert_eq!(b.hi, 243778364914065769617604228963750533971);
    assert_eq!(b.lo, 177080472047269955416046535727235442750);
}

#[test]
fn pool_sub_id_tells_variants_apart() {
    let a = AssetId { hi: 1, lo: 1 };
    let b = AssetId { hi: 1, lo: 2 };
    let volatile = get_pool_sub_id(&PoolId { asset_0: a, asset_1: b, is_stable: false });
    let stable = get_pool_sub_id(&PoolId { asset_0: a, asset_1: b, is_stable: true });
    assert_ne!(volatile, stable);
    // deterministic: the same pool always derives the same sub-identifier
    assert_eq!(
        volatile,
        get_pool_sub_id(&PoolId { asset_0: a, asset_1: b, is_stable: false })
    );
}

#[test]
fn lp_asset_id_matches_reference_digest() {
    let contract = ContractId { hi: 7, lo: 9 };
    let a0 = AssetId {
        hi: 179525841712728388163413957598382734842,
        lo: 262484953226492507837473077083076194355,
    };
    let a1 = AssetId {
        hi: 243778364914065769617604228963750533971,
        lo: 177080472047269955416046535727235442750,
    };
    let volatile = get_lp_asset_id(&contract, &PoolId { asset_0: a0, asset_1: a1, is_stable: false });
    assert_eq!(volatile.hi, 269970946180586250278448327795011979665);
    assert_eq!(volatile.lo, 102477009137258921718635457610935918462);
    let stable = get_lp_asset_id(&contract, &PoolId { asset_0: a0, asset_1: a1, is_stable: true });
    assert_eq!(stable.hi, 291300864703946646789164611024374058316);
    assert_eq!(stable.lo, 273204619911725049655058939398076116710);
}

#[test]
fn order_token_ids_sorts_ascending() {
    let small = AssetId { hi: 1, lo: 5 };
    let big = AssetId { hi: 2, lo: 0 };
    assert_eq!(order_token_ids((small, big)), (small, big));
    assert_eq!(order_token_ids((big, small)), (small, big));
    // ties on the high half are broken by the low half
    let a = AssetId { hi: 1, lo: 1 };
    let b = AssetId { hi: 1, lo: 2 };
    assert_eq!(order_token_ids((b, a)), (a, b));
    // an equal pair is returned unchanged
    assert_eq!(order_token_ids((a, a)), (a, a));
}

#[test]
fn order_sub_ids_follows_asset_order() {
    let small = AssetId { hi: 1, lo: 5 };
    let big = AssetId { hi: 2, lo: 0 };
    let s0 = SubId { hi: 0, lo: 10 };
    let s1 = SubId { hi: 0, lo: 20 };
    assert_eq!(order_sub_ids((small, big), (s0, s1)), (s0, s1));
    assert_eq!(order_sub_ids((big, small), (s0, s1)), (s1, s0));
}

#[test]
fn asset_id_in_walks_the_path_backwards() {
    let a = AssetId { hi: 0, lo: 1 };
    let b = AssetId { hi: 0, lo: 2 };
    let c = AssetId { hi: 0, lo: 3 };
    let pool_ab = PoolId { asset_0: a, asset_1: b, is_stable: false };
    let pool_bc = PoolId { asset_0: b, asset_1: c, is_stable: false };
    assert_eq!(get_asset_id_in(c, &vec![pool_ab, pool_bc]), a);
    assert_eq!(get_asset_id_in(a, &vec![pool_ab]), b);
    assert_eq!(get_asset_id_in(a, &vec![]), a);
}

#[test]
fn wallet_asset_configuration_default() {
    let config = WalletAssetConfiguration::default();
    assert_eq!(config.number_of_assets, 5);
    assert_eq!(config.coins_per_asset, 100);
    assert_eq!(config.amount_per_coin, 1_000_000);
}

#[test]
fn lp_asset_info_needs_every_field() {
    let asset = AssetId { hi: 3, lo: 4 };
    let full = lp_asset_info(
        asset,
        Some(String::from("Pool A-B LP")),
        Some(String::from("AB-LP")),
        Some(9),
        Some(101_000),
    )
    .unwrap();
    assert_eq!(full.asset_id, asset);
    assert_eq!(full.name, "Pool A-B LP");
    assert_eq!(full.symbol, "AB-LP");
    assert_eq!(full.decimals, 9);
    assert_eq!(full.total_supply, 101_000);
    assert!(lp_asset_info(asset, None, Some(String::from("AB-LP")), Some(9), Some(1)).is_none());
    assert!(lp_asset_info(asset, Some(String::from("x")), Some(String::from("y")), None, Some(1)).is_none());
}
