//! Values stored in global state.
//!
//! The store keeps a taxonomy of values: accounts, contracts, bids, purses
//! and so on.  The synchronizer never interprets them, and their wire forms
//! live outside this library; here each payload carries its encoded body as
//! plain bytes, and the enum offers the accessors that callers use to take a
//! stored value apart.  A `CLValue` additionally carries the printable name
//! of its type, which `type_name` reports.

use vstd::prelude::*;

verus! {

/// A typed value, carrying the printable name of its type and its encoded
/// body.
#[derive(PartialEq, Eq, Debug, Clone)]
pub struct CLValue {
    pub cl_type_name: String,
    pub bytes: Vec<u8>,
}

/// An account record.
#[derive(PartialEq, Eq, Debug, Clone)]
pub struct Account {
    pub bytes: Vec<u8>,
}

/// Compiled contract wasm.
#[derive(PartialEq, Eq, Debug, Clone)]
pub struct ContractWasm {
    pub bytes: Vec<u8>,
}

/// A contract header.
#[derive(PartialEq, Eq, Debug, Clone)]
pub struct Contract {
    pub bytes: Vec<u8>,
}

/// A pre-migration contract package.
#[derive(PartialEq, Eq, Debug, Clone)]
pub struct ContractPackage {
    pub bytes: Vec<u8>,
}

/// A version 1 (legacy) transfer.
#[derive(PartialEq, Eq, Debug, Clone)]
pub struct TransferV1 {
    pub bytes: Vec<u8>,
}

/// Information about a deploy.
#[derive(PartialEq, Eq, Debug, Clone)]
pub struct DeployInfo {
    pub bytes: Vec<u8>,
}

/// Information about an era.
#[derive(PartialEq, Eq, Debug, Clone)]
pub struct EraInfo {
    pub bytes: Vec<u8>,
}

/// An auction bid.
#[derive(PartialEq, Eq, Debug, Clone)]
pub struct Bid {
    pub bytes: Vec<u8>,
}

/// A withdraw purse.
#[derive(PartialEq, Eq, Debug, Clone)]
pub struct WithdrawPurse {
    pub bytes: Vec<u8>,
}

/// An unbonding purse.
#[derive(PartialEq, Eq, Debug, Clone)]
pub struct UnbondingPurse {
    pub bytes: Vec<u8>,
}

/// An addressable entity.
#[derive(PartialEq, Eq, Debug, Clone)]
pub struct AddressableEntity {
    pub bytes: Vec<u8>,
}

/// One kind of auction bid.
#[derive(PartialEq, Eq, Debug, Clone)]
pub struct BidKind {
    pub bytes: Vec<u8>,
}

/// A package record.
#[derive(PartialEq, Eq, Debug, Clone)]
pub struct Package {
    pub bytes: Vec<u8>,
}

/// A record of byte code.
#[derive(PartialEq, Eq, Debug, Clone)]
pub struct ByteCode {
    pub bytes: Vec<u8>,
}

/// A summary of a message topic.
#[derive(PartialEq, Eq, Debug, Clone)]
pub struct MessageTopicSummary {
    pub bytes: Vec<u8>,
}

/// A message digest.
#[derive(PartialEq, Eq, Debug, Clone)]
pub struct MessageChecksum {
    pub bytes: Vec<u8>,
}

/// A named-key record.
#[derive(PartialEq, Eq, Debug, Clone)]
pub struct NamedKeyValue {
    pub bytes: Vec<u8>,
}

/// A reservation record.
#[derive(PartialEq, Eq, Debug, Clone)]
pub struct ReservationKind {
    pub bytes: Vec<u8>,
}

/// A value stored in global state.
#[derive(PartialEq, Eq, Debug, Clone)]
pub enum StoredValue {
    /// A CLValue.
    CLValue(CLValue),
    /// An account.
    Account(Account),
    /// Contract wasm.
    ContractWasm(ContractWasm),
    /// A contract.
    Contract(Contract),
    /// A contract package.
    ContractPackage(ContractPackage),
    /// A version 1 (legacy) transfer.
    LegacyTransfer(TransferV1),
    /// Info about a deploy.
    DeployInfo(DeployInfo),
    /// Info about an era.
    EraInfo(EraInfo),
    /// An auction bid.
    Bid(Box<Bid>),
    /// Withdraw information.
    Withdraw(Vec<WithdrawPurse>),
    /// Unbonding information.
    Unbonding(Vec<UnbondingPurse>),
    /// An addressable entity.
    AddressableEntity(AddressableEntity),
    /// One kind of auction bid.
    BidKind(BidKind),
    /// A package.
    Package(Package),
    /// A record of byte code.
    ByteCode(ByteCode),
    /// A message topic summary.
    MessageTopic(MessageTopicSummary),
    /// A message digest.
    Message(MessageChecksum),
    /// A named-key record.
    NamedKey(NamedKeyValue),
    /// A reservation record.
    Reservation(ReservationKind),
}

impl StoredValue {
    /// Returns a reference to the wrapped `CLValue` if this is a `CLValue` variant.
    pub fn as_cl_value(&self) -> (r: Option<&CLValue>)
        ensures
            match self {
                StoredValue::CLValue(cl_value) => r == Some(cl_value),
                _ => r.is_none(),
            },
    {
        match self {
            StoredValue::CLValue(cl_value) => Some(cl_value),
            _ => None,
        }
    }

    /// Returns a reference to the wrapped `Account` if this is an `Account` variant.
    pub fn as_account(&self) -> (r: Option<&Account>)
        ensures
            match self {
                StoredValue::Account(account) => r == Some(account),
                _ => r.is_none(),
            },
    {
        match self {
            StoredValue::Account(account) => Some(account),
            _ => None,
        }
    }

    /// Returns a reference to the wrapped `ByteCode` if this is a `ByteCode` variant.
    pub fn as_byte_code(&self) -> (r: Option<&ByteCode>)
        ensures
            match self {
                StoredValue::ByteCode(byte_code) => r == Some(byte_code),
                _ => r.is_none(),
            },
    {
        match self {
            StoredValue::ByteCode(byte_code) => Some(byte_code),
            _ => None,
        }
    }

    /// Returns a reference to the wrapped `Contract` if this is a `Contract` variant.
    pub fn as_contract(&self) -> (r: Option<&Contract>)
        ensures
            match self {
                StoredValue::Contract(contract) => r == Some(contract),
                _ => r.is_none(),
            },
    {
        match self {
            StoredValue::Contract(contract) => Some(contract),
            _ => None,
        }
    }

    /// Returns a reference to the wrapped `Package` if this is a `Package` variant.
    pub fn as_package(&self) -> (r: Option<&Package>)
        ensures
            match self {
                StoredValue::Package(package) => r == Some(package),
                _ => r.is_none(),
            },
    {
        match self {
            StoredValue::Package(package) => Some(package),
            _ => None,
        }
    }

    /// Returns a reference to the wrapped `TransferV1` if this is a `LegacyTransfer` variant.
    pub fn as_legacy_transfer(&self) -> (r: Option<&TransferV1>)
        ensures
            match self {
                StoredValue::LegacyTransfer(transfer_v1) => r == Some(transfer_v1),
                _ => r.is_none(),
            },
    {
        match self {
            StoredValue::LegacyTransfer(transfer_v1) => Some(transfer_v1),
            _ => None,
        }
    }

    /// Returns a reference to the wrapped `DeployInfo` if this is a `DeployInfo` variant.
    pub fn as_deploy_info(&self) -> (r: Option<&DeployInfo>)
        ensures
            match self {
                StoredValue::DeployInfo(deploy_info) => r == Some(deploy_info),
                _ => r.is_none(),
            },
    {
        match self {
            StoredValue::DeployInfo(deploy_info) => Some(deploy_info),
            _ => None,
        }
    }

    /// Returns a reference to the wrapped `EraInfo` if this is an `EraInfo` variant.
    pub fn as_era_info(&self) -> (r: Option<&EraInfo>)
        ensures
            match self {
                StoredValue::EraInfo(era_info) => r == Some(era_info),
                _ => r.is_none(),
            },
    {
        match self {
            StoredValue::EraInfo(era_info) => Some(era_info),
            _ => None,
        }
    }

    /// Returns a reference to the wrapped list of `WithdrawPurse`s if this is a `Withdraw` variant.
    pub fn as_withdraw(&self) -> (r: Option<&Vec<WithdrawPurse>>)
        ensures
            match self {
                StoredValue::Withdraw(withdraw_purses) => r == Some(withdraw_purses),
                _ => r.is_none(),
            },
    {
        match self {
            StoredValue::Withdraw(withdraw_purses) => Some(withdraw_purses),
            _ => None,
        }
    }

    /// Returns a reference to the wrapped list of `UnbondingPurse`s if this is an `Unbonding` variant.
    pub fn as_unbonding(&self) -> (r: Option<&Vec<UnbondingPurse>>)
        ensures
            match self {
                StoredValue::Unbonding(unbonding_purses) => r == Some(unbonding_purses),
                _ => r.is_none(),
            },
    {
        match self {
            StoredValue::Unbonding(unbonding_purses) => Some(unbonding_purses),
            _ => None,
        }
    }

    /// Returns a reference to the wrapped `AddressableEntity` if this is an `AddressableEntity` variant.
    pub fn as_addressable_entity(&self) -> (r: Option<&AddressableEntity>)
        ensures
            match self {
                StoredValue::AddressableEntity(entity) => r == Some(entity),
                _ => r.is_none(),
            },
    {
        match self {
            StoredValue::AddressableEntity(entity) => Some(entity),
            _ => None,
        }
    }

    /// Returns a reference to the wrapped `MessageTopicSummary` if this is a `MessageTopic` variant.
    pub fn as_message_topic_summary(&self) -> (r: Option<&MessageTopicSummary>)
        ensures
            match self {
                StoredValue::MessageTopic(summary) => r == Some(summary),
                _ => r.is_none(),
            },
    {
        match self {
            StoredValue::MessageTopic(summary) => Some(summary),
            _ => None,
        }
    }

    /// Returns a reference to the wrapped `MessageChecksum` if this is a `Message` variant.
    pub fn as_message_checksum(&self) -> (r: Option<&MessageChecksum>)
        ensures
            match self {
                StoredValue::Message(checksum) => r == Some(checksum),
                _ => r.is_none(),
            },
    {
        match self {
            StoredValue::Message(checksum) => Some(checksum),
            _ => None,
        }
    }

    /// Returns a reference to the wrapped `BidKind` if this is a `BidKind` variant.
    pub fn as_bid_kind(&self) -> (r: Option<&BidKind>)
        ensures
            match self {
                StoredValue::BidKind(bid_kind) => r == Some(bid_kind),
                _ => r.is_none(),
            },
    {
        match self {
            StoredValue::BidKind(bid_kind) => Some(bid_kind),
            _ => None,
        }
    }

    /// Returns a reference to the wrapped `Bid` if this is a `Bid` variant.
    pub fn as_bid(&self) -> (r: Option<&Bid>)
        ensures
            match self {
                StoredValue::Bid(bid) => r == Some(&**bid),
                _ => r.is_none(),
            },
    {
        match self {
            StoredValue::Bid(bid) => Some(&**bid),
            _ => None,
        }
    }

    /// Returns the wrapped `CLValue` if this is a `CLValue` variant.
    pub fn into_cl_value(self) -> (r: Option<CLValue>)
        ensures
            match self {
                StoredValue::CLValue(cl_value) => r == Some(cl_value),
                _ => r.is_none(),
            },
    {
        match self {
            StoredValue::CLValue(cl_value) => Some(cl_value),
            _ => None,
        }
    }

    /// Returns the wrapped `Account` if this is an `Account` variant.
    pub fn into_account(self) -> (r: Option<Account>)
        ensures
            match self {
                StoredValue::Account(account) => r == Some(account),
                _ => r.is_none(),
            },
    {
        match self {
            StoredValue::Account(account) => Some(account),
            _ => None,
        }
    }

    /// Returns the wrapped `ContractWasm` if this is a `ContractWasm` variant.
    pub fn into_contract_wasm(self) -> (r: Option<ContractWasm>)
        ensures
            match self {
                StoredValue::ContractWasm(contract_wasm) => r == Some(contract_wasm),
                _ => r.is_none(),
            },
    {
        match self {
            StoredValue::ContractWasm(contract_wasm) => Some(contract_wasm),
            _ => None,
        }
    }

    /// Returns the wrapped `Contract` if this is a `Contract` variant.
    pub fn into_contract(self) -> (r: Option<Contract>)
        ensures
            match self {
                StoredValue::Contract(contract) => r == Some(contract),
                _ => r.is_none(),
            },
    {
        match self {
            StoredValue::Contract(contract) => Some(contract),
            _ => None,
        }
    }

    /// Returns the wrapped `ContractPackage` if this is a `ContractPackage` variant.
    pub fn into_contract_package(self) -> (r: Option<ContractPackage>)
        ensures
            match self {
                StoredValue::ContractPackage(contract_package) => r == Some(contract_package),
                _ => r.is_none(),
            },
    {
        match self {
            StoredValue::ContractPackage(contract_package) => Some(contract_package),
            _ => None,
        }
    }

    /// Returns the wrapped `Package` if this is a `Package` variant.
    pub fn into_package(self) -> (r: Option<Package>)
        ensures
            match self {
                StoredValue::Package(package) => r == Some(package),
                _ => r.is_none(),
            },
    {
        match self {
            StoredValue::Package(package) => Some(package),
            _ => None,
        }
    }

    /// Returns the wrapped `TransferV1` if this is a `LegacyTransfer` variant.
    pub fn into_legacy_transfer(self) -> (r: Option<TransferV1>)
        ensures
            match self {
                StoredValue::LegacyTransfer(transfer_v1) => r == Some(transfer_v1),
                _ => r.is_none(),
            },
    {
        match self {
            StoredValue::LegacyTransfer(transfer_v1) => Some(transfer_v1),
            _ => None,
        }
    }

    /// Returns the wrapped `DeployInfo` if this is a `DeployInfo` variant.
    pub fn into_deploy_info(self) -> (r: Option<DeployInfo>)
        ensures
            match self {
                StoredValue::DeployInfo(deploy_info) => r == Some(deploy_info),
                _ => r.is_none(),
            },
    {
        match self {
            StoredValue::DeployInfo(deploy_info) => Some(deploy_info),
            _ => None,
        }
    }

    /// Returns the wrapped `EraInfo` if this is an `EraInfo` variant.
    pub fn into_era_info(self) -> (r: Option<EraInfo>)
        ensures
            match self {
                StoredValue::EraInfo(era_info) => r == Some(era_info),
                _ => r.is_none(),
            },
    {
        match self {
            StoredValue::EraInfo(era_info) => Some(era_info),
            _ => None,
        }
    }

    /// Returns the wrapped list of `WithdrawPurse`s if this is a `Withdraw` variant.
    pub fn into_withdraw(self) -> (r: Option<Vec<WithdrawPurse>>)
        ensures
            match self {
                StoredValue::Withdraw(withdraw_purses) => r == Some(withdraw_purses),
                _ => r.is_none(),
            },
    {
        match self {
            StoredValue::Withdraw(withdraw_purses) => Some(withdraw_purses),
            _ => None,
        }
    }

    /// Returns the wrapped list of `UnbondingPurse`s if this is an `Unbonding` variant.
    pub fn into_unbonding(self) -> (r: Option<Vec<UnbondingPurse>>)
        ensures
            match self {
                StoredValue::Unbonding(unbonding_purses) => r == Some(unbonding_purses),
                _ => r.is_none(),
            },
    {
        match self {
            StoredValue::Unbonding(unbonding_purses) => Some(unbonding_purses),
            _ => None,
        }
    }

    /// Returns the wrapped `AddressableEntity` if this is an `AddressableEntity` variant.
    pub fn into_addressable_entity(self) -> (r: Option<AddressableEntity>)
        ensures
            match self {
                StoredValue::AddressableEntity(entity) => r == Some(entity),
                _ => r.is_none(),
            },
    {
        match self {
            StoredValue::AddressableEntity(entity) => Some(entity),
            _ => None,
        }
    }

    /// Returns the wrapped `BidKind` if this is a `BidKind` variant.
    pub fn into_bid_kind(self) -> (r: Option<BidKind>)
        ensures
            match self {
                StoredValue::BidKind(bid_kind) => r == Some(bid_kind),
                _ => r.is_none(),
            },
    {
        match self {
            StoredValue::BidKind(bid_kind) => Some(bid_kind),
            _ => None,
        }
    }

    /// Returns the wrapped `Bid` if this is a `Bid` variant.
    pub fn into_bid(self) -> (r: Option<Bid>)
        ensures
            match self {
                StoredValue::Bid(bid) => r == Some(*bid),
                _ => r.is_none(),
            },
    {
        match self {
            StoredValue::Bid(bid) => Some(*bid),
            _ => None,
        }
    }

    /// Returns the name of the [`StoredValue`] enum variant's type.
    ///
    /// For `CLValue` variants it reports the printable name of the wrapped
    /// value's type.
    pub fn kind_name(&self) -> (r: String)
        ensures
            match self {
                StoredValue::CLValue(cl_value) => r@ == cl_value.cl_type_name@,
                StoredValue::Account(_) => r@ == "Account"@,
                StoredValue::ContractWasm(_) => r@ == "ContractWasm"@,
                StoredValue::Contract(_) => r@ == "Contract"@,
                StoredValue::ContractPackage(_) => r@ == "ContractPackage"@,
                StoredValue::LegacyTransfer(_) => r@ == "LegacyTransfer"@,
                StoredValue::DeployInfo(_) => r@ == "DeployInfo"@,
                StoredValue::EraInfo(_) => r@ == "EraInfo"@,
                StoredValue::Bid(_) => r@ == "Bid"@,
                StoredValue::Withdraw(_) => r@ == "Withdraw"@,
                StoredValue::Unbonding(_) => r@ == "Unbonding"@,
                StoredValue::AddressableEntity(_) => r@ == "AddressableEntity"@,
                StoredValue::BidKind(_) => r@ == "BidKind"@,
                StoredValue::Package(_) => r@ == "Package"@,
                StoredValue::ByteCode(_) => r@ == "ByteCode"@,
                StoredValue::MessageTopic(_) => r@ == "MessageTopic"@,
                StoredValue::Message(_) => r@ == "Message"@,
                StoredValue::NamedKey(_) => r@ == "NamedKey"@,
                StoredValue::Reservation(_) => r@ == "Reservation"@,
            },
    {
        match self {
            StoredValue::CLValue(cl_value) => cl_value.cl_type_name.clone(),
            StoredValue::Account(_) => "Account".to_owned(),
            StoredValue::ContractWasm(_) => "ContractWasm".to_owned(),
            StoredValue::Contract(_) => "Contract".to_owned(),
            StoredValue::ContractPackage(_) => "ContractPackage".to_owned(),
            StoredValue::LegacyTransfer(_) => "LegacyTransfer".to_owned(),
            StoredValue::DeployInfo(_) => "DeployInfo".to_owned(),
            StoredValue::EraInfo(_) => "EraInfo".to_owned(),
            StoredValue::Bid(_) => "Bid".to_owned(),
            StoredValue::Withdraw(_) => "Withdraw".to_owned(),
            StoredValue::Unbonding(_) => "Unbonding".to_owned(),
            StoredValue::AddressableEntity(_) => "AddressableEntity".to_owned(),
            StoredValue::BidKind(_) => "BidKind".to_owned(),
            StoredValue::Package(_) => "Package".to_owned(),
            StoredValue::ByteCode(_) => "ByteCode".to_owned(),
            StoredValue::MessageTopic(_) => "MessageTopic".to_owned(),
            StoredValue::Message(_) => "Message".to_owned(),
            StoredValue::NamedKey(_) => "NamedKey".to_owned(),
            StoredValue::Reservation(_) => "Reservation".to_owned(),
        }
    }
}

impl From<CLValue> for StoredValue {
    fn from(value: CLValue) -> (r: StoredValue) {
        StoredValue::CLValue(value)
    }
}

impl vstd::std_specs::convert::FromSpecImpl<CLValue> for StoredValue {
    open spec fn obeys_from_spec() -> bool {
        true
    }

    open spec fn from_spec(value: CLValue) -> StoredValue {
        StoredValue::CLValue(value)
    }
}

impl From<Account> for StoredValue {
    fn from(value: Account) -> (r: StoredValue) {
        StoredValue::Account(value)
    }
}

impl vstd::std_specs::convert::FromSpecImpl<Account> for StoredValue {
    open spec fn obeys_from_spec() -> bool {
        true
    }

    open spec fn from_spec(value: Account) -> StoredValue {
        StoredValue::Account(value)
    }
}

impl From<ContractWasm> for StoredValue {
    fn from(value: ContractWasm) -> (r: StoredValue) {
        StoredValue::ContractWasm(value)
    }
}

impl vstd::std_specs::convert::FromSpecImpl<ContractWasm> for StoredValue {
    open spec fn obeys_from_spec() -> bool {
        true
    }

    open spec fn from_spec(value: ContractWasm) -> StoredValue {
        StoredValue::ContractWasm(value)
    }
}

impl From<ContractPackage> for StoredValue {
    fn from(value: ContractPackage) -> (r: StoredValue) {
        StoredValue::ContractPackage(value)
    }
}

impl vstd::std_specs::convert::FromSpecImpl<ContractPackage> for StoredValue {
    open spec fn obeys_from_spec() -> bool {
        true
    }

    open spec fn from_spec(value: ContractPackage) -> StoredValue {
        StoredValue::ContractPackage(value)
    }
}

impl From<Contract> for StoredValue {
    fn from(value: Contract) -> (r: StoredValue) {
        StoredValue::Contract(value)
    }
}

impl vstd::std_specs::convert::FromSpecImpl<Contract> for StoredValue {
    open spec fn obeys_from_spec() -> bool {
        true
    }

    open spec fn from_spec(value: Contract) -> StoredValue {
        StoredValue::Contract(value)
    }
}

impl From<AddressableEntity> for StoredValue {
    fn from(value: AddressableEntity) -> (r: StoredValue) {
        StoredValue::AddressableEntity(value)
    }
}

impl vstd::std_specs::convert::FromSpecImpl<AddressableEntity> for StoredValue {
    open spec fn obeys_from_spec() -> bool {
        true
    }

    open spec fn from_spec(value: AddressableEntity) -> StoredValue {
        StoredValue::AddressableEntity(value)
    }
}

impl From<Package> for StoredValue {
    fn from(value: Package) -> (r: StoredValue) {
        StoredValue::Package(value)
    }
}

impl vstd::std_specs::convert::FromSpecImpl<Package> for StoredValue {
    open spec fn obeys_from_spec() -> bool {
        true
    }

    open spec fn from_spec(value: Package) -> StoredValue {
        StoredValue::Package(value)
    }
}

impl From<BidKind> for StoredValue {
    fn from(bid_kind: BidKind) -> (r: StoredValue) {
        StoredValue::BidKind(bid_kind)
    }
}

impl vstd::std_specs::convert::FromSpecImpl<BidKind> for StoredValue {
    open spec fn obeys_from_spec() -> bool {
        true
    }

    open spec fn from_spec(bid_kind: BidKind) -> StoredValue {
        StoredValue::BidKind(bid_kind)
    }
}

impl From<ByteCode> for StoredValue {
    fn from(value: ByteCode) -> (r: StoredValue) {
        StoredValue::ByteCode(value)
    }
}

impl vstd::std_specs::convert::FromSpecImpl<ByteCode> for StoredValue {
    open spec fn obeys_from_spec() -> bool {
        true
    }

    open spec fn from_spec(value: ByteCode) -> StoredValue {
        StoredValue::ByteCode(value)
    }
}

impl From<Bid> for StoredValue {
    fn from(bid: Bid) -> (r: StoredValue) {
        StoredValue::Bid(Box::new(bid))
    }
}

impl vstd::std_specs::convert::FromSpecImpl<Bid> for StoredValue {
    open spec fn obeys_from_spec() -> bool {
        true
    }

    open spec fn from_spec(bid: Bid) -> StoredValue {
        StoredValue::Bid(Box::new(bid))
    }
}

/// The error reported when a human-readable form cannot be decoded into a
/// stored value.
#[derive(PartialEq, Eq, Debug, Clone)]
pub struct InvalidHumanReadableDeser {
    pub underlying: String,
}

impl InvalidHumanReadableDeser {
    /// The underlying decoder's message.
    pub fn message(&self) -> (r: String)
        ensures
            r@ == self.underlying@,
    {
        self.underlying.clone()
    }
}

} // verus!
