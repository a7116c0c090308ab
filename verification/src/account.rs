//! Account identifiers and the custodial account of a market.

use sp_runtime::traits::AccountIdConversion;
use sp_runtime::ModuleId;
use vstd::bytes::{lemma_auto_spec_u128_to_from_le_bytes, spec_u128_to_le_bytes};
use vstd::prelude::*;
use vstd::std_specs::cmp::PartialEqSpecImpl;

verus! {

/// A 32-byte account identifier.
#[derive(Clone, Copy, Debug)]
pub struct AccountId(pub [u8; 32]);

impl PartialEq for AccountId {
    fn eq(&self, other: &AccountId) -> (r: bool) {
        let mut i: usize = 0;
        while i < 32
            invariant
                0 <= i <= 32,
                forall|j: int| 0 <= j < i ==> self.0@[j] == other.0@[j],
            decreases 32 - i,
        {
            if self.0[i] != other.0[i] {
                return false;
            }
            i += 1;
        }
        assert(self.0@ =~= other.0@);
        assert(self.0 == other.0);
        true
    }
}

impl Eq for AccountId {

}

impl PartialEqSpecImpl for AccountId {
    open spec fn obeys_eq_spec() -> bool {
        true
    }

    open spec fn eq_spec(&self, other: &AccountId) -> bool {
        *self == *other
    }
}

/// The four bytes that open every account derived from a module identifier.
pub open spec fn type_tag() -> Seq<u8> {
    seq![109u8, 111u8, 100u8, 108u8]
}

/// The bytes of the account derived from a module identifier and a market
/// identifier: the tag, the module identifier, the market identifier in
/// little-endian order, and zeros up to 32 bytes.
pub open spec fn sub_account_bytes(module_id: Seq<u8>, market_id: u128) -> Seq<u8> {
    type_tag() + module_id + spec_u128_to_le_bytes(market_id) + seq![0u8, 0u8, 0u8, 0u8]
}

/// The array whose first `k` entries are those of `bytes`, the rest zero.
pub open spec fn array_prefix(bytes: Seq<u8>, k: nat) -> [u8; 32]
    decreases k,
{
    if k == 0 {
        vstd::array::spec_array_fill_for_copy_type::<u8, 32>(0u8)
    } else {
        vstd::array::spec_array_update(array_prefix(bytes, (k - 1) as nat), k - 1, bytes[k - 1])
    }
}

/// The custodial account of market `market_id` under `module_id`.
pub open spec fn spec_market_account(module_id: [u8; 8], market_id: u128) -> AccountId {
    AccountId(array_prefix(sub_account_bytes(module_id@, market_id), 32))
}

proof fn lemma_array_prefix(bytes: Seq<u8>, k: nat)
    requires
        k <= 32,
        bytes.len() == 32,
    ensures
        array_prefix(bytes, k)@.len() == 32,
        forall|j: int| 0 <= j < k ==> array_prefix(bytes, k)@[j] == bytes[j],
    decreases k,
{
    broadcast use vstd::array::group_array_axioms;
    if k > 0 {
        lemma_array_prefix(bytes, (k - 1) as nat);
    }
}

/// Calls `AccountIdConversion::into_sub_account` of `sp_runtime` on a
/// `ModuleId`, with the market identifier as the sub-identifier and a
/// 32-byte array as the account type. The contract claims the layout that
/// the implementation documents: the type tag `modl`, the eight bytes of the
/// module identifier, the SCALE encoding of the `u128` (sixteen bytes,
/// little-endian), then trailing zeros.
#[verifier::external_body]
fn into_sub_account(module_id: &[u8; 8], market_id: u128) -> (r: [u8; 32])
    ensures
        r@ == sub_account_bytes(module_id@, market_id),
{
    ModuleId(*module_id).into_sub_account(market_id)
}

/// Derives the custodial account of `market_id` under `module_id`.
pub fn derive_market_account(module_id: &[u8; 8], market_id: u128) -> (r: AccountId)
    ensures
        r == spec_market_account(*module_id, market_id),
        r.0@ == sub_account_bytes(module_id@, market_id),
{
    let r = AccountId(into_sub_account(module_id, market_id));
    proof {
        lemma_market_account_bytes(*module_id, market_id);
        assert(spec_market_account(*module_id, market_id).0@ =~= r.0@);
        assert(spec_market_account(*module_id, market_id).0 == r.0);
    }
    r
}

/// Distinct markets have distinct custodial accounts.
pub proof fn lemma_market_accounts_distinct(module_id: [u8; 8], a: u128, b: u128)
    requires
        a != b,
    ensures
        spec_market_account(module_id, a) != spec_market_account(module_id, b),
{
    lemma_auto_spec_u128_to_from_le_bytes();
    lemma_market_account_bytes(module_id, a);
    lemma_market_account_bytes(module_id, b);
    let x = sub_account_bytes(module_id@, a);
    let y = sub_account_bytes(module_id@, b);
    if x == y {
        assert(x.subrange(12, 28) =~= spec_u128_to_le_bytes(a));
        assert(y.subrange(12, 28) =~= spec_u128_to_le_bytes(b));
    }
}

/// The custodial account of a market holds the documented bytes.
pub proof fn lemma_market_account_bytes(module_id: [u8; 8], market_id: u128)
    ensures
        spec_market_account(module_id, market_id).0@ == sub_account_bytes(module_id@, market_id),
{
    lemma_auto_spec_u128_to_from_le_bytes();
    let bytes = sub_account_bytes(module_id@, market_id);
    assert(bytes.len() == 32);
    lemma_array_prefix(bytes, 32);
    assert(array_prefix(bytes, 32)@ =~= bytes);
}

} // verus!
