//! Taking stored values apart through the accessors.

use global_state_sync::stored_value::{
    Account, Bid, BidKind, CLValue, Contract, InvalidHumanReadableDeser, Package, StoredValue,
    WithdrawPurse,
};

#[test]
fn as_accessors_pick_the_right_variant() {
    let account = StoredValue::Account(Account { bytes: vec![1, 2] });
    assert_eq!(account.as_account(), Some(&Account { bytes: vec![1, 2] }));
    assert_eq!(account.as_contract(), None);
    assert_eq!(account.as_bid(), None);
    assert_eq!(account.as_cl_value(), None);

    let contract = StoredValue::Contract(Contract { bytes: vec![3] });
    assert_eq!(contract.as_contract(), Some(&Contract { bytes: vec![3] }));
    assert_eq!(contract.as_account(), None);

    let bid = StoredValue::Bid(Box::new(Bid { bytes: vec![4, 5] }));
    assert_eq!(bid.as_bid(), Some(&Bid { bytes: vec![4, 5] }));
    assert_eq!(bid.as_bid_kind(), None);

    let withdraw = StoredValue::Withdraw(vec![WithdrawPurse { bytes: vec![6] }]);
    assert_eq!(
        withdraw.as_withdraw(),
        Some(&vec![WithdrawPurse { bytes: vec![6] }])
    );
    assert_eq!(withdraw.as_unbonding(), None);
}

#[test]
fn into_accessors_consume_the_value() {
    let cl = StoredValue::CLValue(CLValue {
        cl_type_name: "U512".to_string(),
        bytes: vec![7],
    });
    assert_eq!(
        cl.clone().into_cl_value(),
        Some(CLValue { cl_type_name: "U512".to_string(), bytes: vec![7] })
    );
    assert_eq!(cl.into_account(), None);

    let bid = StoredValue::Bid(Box::new(Bid { bytes: vec![8] }));
    assert_eq!(bid.into_bid(), Some(Bid { bytes: vec![8] }));

    let kind = StoredValue::BidKind(BidKind { bytes: vec![9] });
    assert_eq!(kind.clone().into_bid_kind(), Some(BidKind { bytes: vec![9] }));
    assert_eq!(kind.into_era_info(), None);
}

#[test]
fn kind_name_reports_the_variant() {
    let cl = StoredValue::CLValue(CLValue {
        cl_type_name: "Map { key: String, value: U64 }".to_string(),
        bytes: vec![],
    });
    assert_eq!(cl.kind_name(), "Map { key: String, value: U64 }");
    let account = StoredValue::Account(Account { bytes: vec![] });
    assert_eq!(account.kind_name(), "Account");
    let unbonding = StoredValue::Unbonding(vec![]);
    assert_eq!(unbonding.kind_name(), "Unbonding");
    let withdraw = StoredValue::Withdraw(vec![]);
    assert_eq!(withdraw.kind_name(), "Withdraw");
}

#[test]
fn invalid_human_readable_message() {
    let err = InvalidHumanReadableDeser {
        underlying: "duplicate contract version: ContractVersionKey(1, 1)".to_string(),
    };
    assert_eq!(
        err.message(),
        "duplicate contract version: ContractVersionKey(1, 1)"
    );
}

#[test]
fn from_conversions_build_the_right_variant() {
    let sv = StoredValue::from(Account { bytes: vec![1] });
    assert_eq!(sv, StoredValue::Account(Account { bytes: vec![1] }));
    let sv = StoredValue::from(Bid { bytes: vec![2] });
    assert_eq!(sv, StoredValue::Bid(Box::new(Bid { bytes: vec![2] })));
    let sv = StoredValue::from(Package { bytes: vec![3] });
    assert_eq!(sv, StoredValue::Package(Package { bytes: vec![3] }));
    let sv = StoredValue::from(BidKind { bytes: vec![4] });
    assert_eq!(sv.as_bid_kind(), Some(&BidKind { bytes: vec![4] }));
}
