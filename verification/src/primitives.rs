//! The values that a block reads from state.
use crate::digits::be_value;
use vstd::prelude::*;

verus! {

/// The address of an account.
#[derive(Clone, Copy, Debug, PartialEq, Eq)]
pub struct Address(pub [u8; 20]);

/// A 256-bit hash.
#[derive(Clone, Copy, Debug, PartialEq, Eq)]
pub struct B256(pub [u8; 32]);

/// A 256-bit unsigned number, as four limbs of 64 bits, least significant first.
#[derive(Clone, Copy, Debug, PartialEq, Eq)]
pub struct U256 {
    pub limbs: [u64; 4],
}

/// What an execution reads of an account.
#[derive(Clone, Copy, Debug, PartialEq, Eq)]
pub struct AccountInfo {
    pub nonce: u64,
    pub balance: U256,
    pub code_hash: B256,
}

/// The mathematical content of an [`AccountInfo`].
#[verifier::ext_equal]
pub struct Account {
    pub nonce: nat,
    pub balance: nat,
    pub code_hash: Seq<u8>,
}

impl View for B256 {
    type V = Seq<u8>;

    open spec fn view(&self) -> Seq<u8> {
        self.0@
    }
}

impl View for U256 {
    type V = nat;

    open spec fn view(&self) -> nat {
        (self.limbs[0] + 0x1_0000_0000_0000_0000 * (self.limbs[1] + 0x1_0000_0000_0000_0000 * (
        self.limbs[2] + 0x1_0000_0000_0000_0000 * self.limbs[3]))) as nat
    }
}

impl View for AccountInfo {
    type V = Account;

    open spec fn view(&self) -> Account {
        Account { nonce: self.nonce as nat, balance: self.balance@, code_hash: self.code_hash@ }
    }
}

/// An account, present or absent, as its mathematical content.
pub open spec fn account_view(info: Option<AccountInfo>) -> Option<Account> {
    match info {
        Some(info) => Some(info@),
        None => None,
    }
}

/// The Keccak-256 hash of no bytes, which stands for an account without code.
pub open spec fn keccak_empty_bytes() -> Seq<u8> {
    seq![
        0xc5, 0xd2, 0x46, 0x01, 0x86, 0xf7, 0x23, 0x3c, 0x92, 0x7e, 0x7d, 0xb2, 0xdc, 0xc7, 0x03, 0xc0,
        0xe5, 0x00, 0xb6, 0x53, 0xca, 0x82, 0x27, 0x3b, 0x7b, 0xfa, 0xd8, 0x04, 0x5d, 0x85, 0xa4, 0x70,
    ]
}

/// `alloy_primitives::KECCAK256_EMPTY`: the constant holds the 32 bytes that
/// [`keccak_empty_bytes`] lists.
#[verifier::external_body]
pub(crate) fn keccak_empty() -> (hash: B256)
    ensures
        hash@ == keccak_empty_bytes(),
{
    B256(alloy_primitives::KECCAK256_EMPTY.0)
}

/// `alloy_primitives::U256::to_be_bytes`, on the number with these limbs
/// (`U256::from_limbs`, which takes every four limbs): the 32 bytes spell the
/// number, most significant byte first.
#[verifier::external_body]
pub(crate) fn u256_to_be_bytes(value: &U256) -> (bytes: [u8; 32])
    ensures
        be_value(bytes@) == value@,
{
    alloy_primitives::U256::from_limbs(value.limbs).to_be_bytes::<32>()
}

/// `alloy_primitives::U256::from_be_bytes`, with the limbs of the result
/// (`U256::into_limbs`): the number is the one that the 32 bytes spell, most
/// significant byte first.
#[verifier::external_body]
pub(crate) fn u256_from_be_bytes(bytes: [u8; 32]) -> (value: U256)
    ensures
        value@ == be_value(bytes@),
{
    U256 { limbs: alloy_primitives::U256::from_be_bytes::<32>(bytes).into_limbs() }
}

impl B256 {
    /// Whether both hashes hold the same bytes.
    pub fn same(&self, other: &B256) -> (same: bool)
        ensures
            same == (self@ == other@),
    {
        for i in 0..32usize
            invariant
                forall|j: int| 0 <= j < i ==> self@[j] == other@[j],
        {
            if self.0[i] != other.0[i] {
                return false;
            }
        }
        assert(self@ =~= other@);
        true
    }
}

/// A number is made of its limbs, each worth 2 to the 64 times the one before.
pub proof fn law_limbs(a: U256, b: U256)
    ensures
        a@ == a.limbs[0] + 0x1_0000_0000_0000_0000 * a.limbs[1]
            + 0x1_0000_0000_0000_0000_0000_0000_0000_0000 * a.limbs[2]
            + 0x1_0000_0000_0000_0000_0000_0000_0000_0000_0000_0000_0000_0000 * a.limbs[3],
        a@ == b@ ==> a.limbs@ == b.limbs@,
{
    if a@ == b@ {
        assert(a.limbs@ =~= b.limbs@);
    }
}

/// What an account is read as is all of it.
pub proof fn law_account_content(info: AccountInfo)
    ensures
        account_view(None) is None,
        account_view(Some(info)) is Some,
        account_view(Some(info))->0.nonce == info.nonce,
        account_view(Some(info))->0.balance == info.balance@,
        account_view(Some(info))->0.code_hash == info.code_hash.0@,
{
}

} // verus!
