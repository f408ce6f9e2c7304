//! The contract's entry points, each a step of the storage given the call.
use crate::address::{address_eq_defined, Address};
use crate::db::Store;
use crate::context::Msg;
use crate::persist::{
    amount_of, derive_pair_key, pairs_count, get_chain_id, get_harvest_ratio_limit, get_owner, get_unclaimed,
    is_owner, pair_key, pair_registered, require_owner, save_pair, save_pair_spec, set_chain_id,
    set_harvest_ratio_limit, set_owner, set_unclaimed, Contract, ContractError, ContractView,
};
use crate::u256::{u256_max, U256};
use crate::utils::{calculate_svrb, ray_mul_ok, ray_mul_spec, svrb_ok, svrb_spec, RayMath};
use vstd::prelude::*;

verus! {

/// The storage after `amount` is added to the unclaimed reward of `key`.
pub open spec fn mint_spec(v: ContractView, key: Seq<u8>, amount: nat) -> ContractView {
    ContractView { unclaimed: v.unclaimed.insert(key, amount_of(v.unclaimed, key) + amount), ..v }
}

/// The storage after `amount` is taken from the unclaimed reward of `key`,
/// which does not go below zero.
pub open spec fn burn_spec(v: ContractView, key: Seq<u8>, amount: nat) -> ContractView {
    let before = amount_of(v.unclaimed, key);
    ContractView {
        unclaimed: v.unclaimed.insert(
            key,
            if before <= amount {
                0
            } else {
                (before - amount) as nat
            },
        ),
        ..v
    }
}

/// Adds `amount` to the unclaimed reward of a pair.
pub fn _mint(c: &mut Contract, pair: &[u8], amount: &U256)
    requires
        old(c).wf(),
        amount.wf(),
        amount_of(old(c)@.unclaimed, pair@) + amount.value() <= u256_max(),
    ensures
        final(c).wf(),
        final(c)@ == mint_spec(old(c)@, pair@, amount.value()),
{
    let before_mint = get_unclaimed(c, pair);
    let after_mint = before_mint.add(amount);
    set_unclaimed(c, pair, after_mint);
}

/// Takes `amount` from the unclaimed reward of a pair, down to zero at most.
pub fn _burn(c: &mut Contract, pair: &[u8], amount: &U256)
    requires
        old(c).wf(),
        amount.wf(),
    ensures
        final(c).wf(),
        final(c)@ == burn_spec(old(c)@, pair@, amount.value()),
{
    let before_burn = get_unclaimed(c, pair);
    let after_burn = if before_burn.le(amount) {
        U256::zero()
    } else {
        before_burn.sub(amount)
    };
    set_unclaimed(c, pair, after_burn);
}

/// Makes the sender the owner and records the chain id. Anyone may call it.
pub fn init(c: &mut Contract, msg: &Msg, chain_id: u64)
    requires
        old(c).wf(),
    ensures
        final(c).wf(),
        final(c)@ == (ContractView { owner: msg.sender.bytes(), chain_id, ..old(c)@ }),
{
    set_owner(c, &msg.sender);
    set_chain_id(c, chain_id);
}

pub fn getOwner(c: &Contract) -> (r: Address)
    ensures
        r.bytes() == c@.owner,
{
    get_owner(c)
}

pub fn getChainId(c: &Contract) -> (r: u64)
    ensures
        r == c@.chain_id,
{
    get_chain_id(c)
}

pub fn getHarvestRatioLimit(c: &Contract, asset: Address) -> (r: U256)
    requires
        c.wf(),
    ensures
        r.wf(),
        r.value() == amount_of(c@.harvest_ratio, asset.bytes()),
{
    get_harvest_ratio_limit(c, &asset)
}

/// Sets the harvest ratio limit of an asset; only the owner may.
pub fn setHarvestRatioLimit(c: &mut Contract, msg: &Msg, asset: Address, limit: U256) -> (r: Result<
    (),
    ContractError,
>)
    requires
        old(c).wf(),
        address_eq_defined(old(c)@.owner, msg.sender.bytes()),
        limit.wf(),
    ensures
        final(c).wf(),
        is_owner(old(c)@, msg.sender.bytes()) ==> r is Ok && final(c)@ == (ContractView {
            harvest_ratio: old(c)@.harvest_ratio.insert(asset.bytes(), limit.value()),
            ..old(c)@
        }),
        !is_owner(old(c)@, msg.sender.bytes()) ==> r == Err::<(), ContractError>(
            ContractError::NotOwner,
        ) && final(c)@ == old(c)@,
{
    require_owner(c, msg)?;
    set_harvest_ratio_limit(c, &asset, &limit);
    Ok(())
}

/// The unclaimed reward of a pair and the harvest ratio limit of its asset.
pub open spec fn unclaimed_and_ratio(v: ContractView, asset: Seq<u8>, mptype: u64, user: Seq<u8>) -> (nat, nat) {
    (amount_of(v.unclaimed, pair_key(asset, mptype, user)), amount_of(v.harvest_ratio, asset))
}

/// The part of the unclaimed reward that may be harvested: the reward times
/// the asset's harvest ratio limit, in rays.
pub open spec fn unlocked_spec(v: ContractView, asset: Seq<u8>, mptype: u64, user: Seq<u8>) -> nat {
    let (u, ratio) = unclaimed_and_ratio(v, asset, mptype, user);
    ray_mul_spec(u, ratio)
}

/// The rest of the unclaimed reward.
pub open spec fn locked_spec(v: ContractView, asset: Seq<u8>, mptype: u64, user: Seq<u8>) -> nat {
    let (u, ratio) = unclaimed_and_ratio(v, asset, mptype, user);
    (u - unlocked_spec(v, asset, mptype, user)) as nat
}

pub fn locked(c: &Contract, asset: Address, mptype: u64, user: Address) -> (r: U256)
    requires
        c.wf(),
        ray_mul_ok(
            unclaimed_and_ratio(c@, asset.bytes(), mptype, user.bytes()).0,
            unclaimed_and_ratio(c@, asset.bytes(), mptype, user.bytes()).1,
        ),
        unlocked_spec(c@, asset.bytes(), mptype, user.bytes()) <= unclaimed_and_ratio(
            c@,
            asset.bytes(),
            mptype,
            user.bytes(),
        ).0,
    ensures
        r.wf(),
        r.value() == locked_spec(c@, asset.bytes(), mptype, user.bytes()),
{
    let pair = derive_pair_key(&asset, mptype, &user);
    let unclaimed = get_unclaimed(c, pair.as_slice());
    let ratio = get_harvest_ratio_limit(c, &asset);
    let unlocked = RayMath::ray_mul(&unclaimed, &ratio);
    unclaimed.sub(&unlocked)
}

pub fn unlocked(c: &Contract, asset: Address, mptype: u64, user: Address) -> (r: U256)
    requires
        c.wf(),
        ray_mul_ok(
            unclaimed_and_ratio(c@, asset.bytes(), mptype, user.bytes()).0,
            unclaimed_and_ratio(c@, asset.bytes(), mptype, user.bytes()).1,
        ),
    ensures
        r.wf(),
        r.value() == unlocked_spec(c@, asset.bytes(), mptype, user.bytes()),
{
    let pair = derive_pair_key(&asset, mptype, &user);
    let unclaimed = get_unclaimed(c, pair.as_slice());
    let ratio = get_harvest_ratio_limit(c, &asset);
    RayMath::ray_mul(&unclaimed, &ratio)
}

/// Only the owner may call it; the owner is then set to the sender, so the
/// `owner` argument is not used.
pub fn modifyOwner(c: &mut Contract, msg: &Msg, owner: Address) -> (r: Result<(), ContractError>)
    requires
        old(c).wf(),
        address_eq_defined(old(c)@.owner, msg.sender.bytes()),
    ensures
        final(c).wf(),
        is_owner(old(c)@, msg.sender.bytes()) ==> r is Ok && final(c)@ == (ContractView {
            owner: msg.sender.bytes(),
            ..old(c)@
        }),
        !is_owner(old(c)@, msg.sender.bytes()) ==> r == Err::<(), ContractError>(
            ContractError::NotOwner,
        ) && final(c)@ == old(c)@,
{
    require_owner(c, msg)?;
    set_owner(c, &msg.sender);
    Ok(())
}

/// Adds `amount` to the unclaimed reward of (asset, mptype, user); only the
/// owner may.
pub fn mint(c: &mut Contract, msg: &Msg, asset: Address, mptype: u64, user: Address, amount: U256) -> (r:
    Result<(), ContractError>)
    requires
        old(c).wf(),
        address_eq_defined(old(c)@.owner, msg.sender.bytes()),
        amount.wf(),
        is_owner(old(c)@, msg.sender.bytes()) ==> amount_of(
            old(c)@.unclaimed,
            pair_key(asset.bytes(), mptype, user.bytes()),
        ) + amount.value() <= u256_max(),
    ensures
        final(c).wf(),
        is_owner(old(c)@, msg.sender.bytes()) ==> r is Ok && final(c)@ == mint_spec(
            old(c)@,
            pair_key(asset.bytes(), mptype, user.bytes()),
            amount.value(),
        ),
        !is_owner(old(c)@, msg.sender.bytes()) ==> r == Err::<(), ContractError>(
            ContractError::NotOwner,
        ) && final(c)@ == old(c)@,
{
    require_owner(c, msg)?;
    let k = derive_pair_key(&asset, mptype, &user);
    _mint(c, k.as_slice(), &amount);
    Ok(())
}

/// Takes `amount` from the unclaimed reward of (asset, mptype, user), down
/// to zero at most; only the owner may. `age` is not used.
pub fn burn(
    c: &mut Contract,
    msg: &Msg,
    asset: Address,
    mptype: u64,
    user: Address,
    amount: U256,
    age: u64,
) -> (r: Result<(), ContractError>)
    requires
        old(c).wf(),
        address_eq_defined(old(c)@.owner, msg.sender.bytes()),
        amount.wf(),
    ensures
        final(c).wf(),
        is_owner(old(c)@, msg.sender.bytes()) ==> r is Ok && final(c)@ == burn_spec(
            old(c)@,
            pair_key(asset.bytes(), mptype, user.bytes()),
            amount.value(),
        ),
        !is_owner(old(c)@, msg.sender.bytes()) ==> r == Err::<(), ContractError>(
            ContractError::NotOwner,
        ) && final(c)@ == old(c)@,
{
    require_owner(c, msg)?;
    let k = derive_pair_key(&asset, mptype, &user);
    _burn(c, k.as_slice(), &amount);
    Ok(())
}

/// The key of entry `i` of a batch.
pub open spec fn batch_key(assets: Seq<Address>, mptypes: Seq<u64>, users: Seq<Address>, i: int) -> Seq<u8> {
    pair_key(assets[i].bytes(), mptypes[i], users[i].bytes())
}

/// The storage after the first `n` entries of a batch: each entry's pair is
/// registered and its amount added to the pair's unclaimed reward.
pub open spec fn batch_mint_spec(
    v: ContractView,
    assets: Seq<Address>,
    mptypes: Seq<u64>,
    users: Seq<Address>,
    amounts: Seq<U256>,
    n: nat,
) -> ContractView
    decreases n,
{
    if n == 0 {
        v
    } else {
        let w = batch_mint_spec(v, assets, mptypes, users, amounts, (n - 1) as nat);
        let key = batch_key(assets, mptypes, users, n - 1);
        mint_spec(save_pair_spec(w, key).0, key, amounts[n - 1].value())
    }
}

/// No entry among the first `n` of a batch overflows.
pub open spec fn batch_mint_ok(
    v: ContractView,
    assets: Seq<Address>,
    mptypes: Seq<u64>,
    users: Seq<Address>,
    amounts: Seq<U256>,
    n: nat,
) -> bool
    decreases n,
{
    if n == 0 {
        true
    } else {
        let w = batch_mint_spec(v, assets, mptypes, users, amounts, (n - 1) as nat);
        let key = batch_key(assets, mptypes, users, n - 1);
        &&& batch_mint_ok(v, assets, mptypes, users, amounts, (n - 1) as nat)
        &&& !w.pair_index.contains_key(key) ==> w.pairs_count < u64::MAX
        &&& amount_of(save_pair_spec(w, key).0.unclaimed, key) + amounts[n - 1].value() <= u256_max()
    }
}

pub proof fn lemma_batch_mint_ok_prefix(
    v: ContractView,
    assets: Seq<Address>,
    mptypes: Seq<u64>,
    users: Seq<Address>,
    amounts: Seq<U256>,
    m: nat,
    n: nat,
)
    requires
        m <= n,
        batch_mint_ok(v, assets, mptypes, users, amounts, n),
    ensures
        batch_mint_ok(v, assets, mptypes, users, amounts, m),
    decreases n,
{
    if m < n {
        lemma_batch_mint_ok_prefix(v, assets, mptypes, users, amounts, m, (n - 1) as nat);
    }
}

/// Mints a batch; only the owner may. The loop runs over the byte length of
/// the encoded asset list, `count`, so every list must hold at least `count`
/// entries. `age` is not used.
pub fn batchMint(
    c: &mut Contract,
    msg: &Msg,
    count: usize,
    assets: &Vec<Address>,
    mptypes: &Vec<u64>,
    users: &Vec<Address>,
    amounts: &Vec<U256>,
    age: u64,
) -> (r: Result<(), ContractError>)
    requires
        old(c).wf(),
        address_eq_defined(old(c)@.owner, msg.sender.bytes()),
        is_owner(old(c)@, msg.sender.bytes()) ==> {
            &&& count <= assets.len()
            &&& count <= mptypes.len()
            &&& count <= users.len()
            &&& count <= amounts.len()
            &&& forall|i: int| 0 <= i < count ==> #[trigger] amounts@[i].wf()
            &&& batch_mint_ok(old(c)@, assets@, mptypes@, users@, amounts@, count as nat)
        },
    ensures
        final(c).wf(),
        is_owner(old(c)@, msg.sender.bytes()) ==> r is Ok && final(c)@ == batch_mint_spec(
            old(c)@,
            assets@,
            mptypes@,
            users@,
            amounts@,
            count as nat,
        ),
        !is_owner(old(c)@, msg.sender.bytes()) ==> r == Err::<(), ContractError>(
            ContractError::NotOwner,
        ) && final(c)@ == old(c)@,
{
    require_owner(c, msg)?;
    let ghost v0 = c@;
    let mut i: usize = 0;
    while i < count
        invariant
            i <= count,
            count <= assets.len(),
            count <= mptypes.len(),
            count <= users.len(),
            count <= amounts.len(),
            forall|j: int| 0 <= j < count ==> #[trigger] amounts@[j].wf(),
            batch_mint_ok(v0, assets@, mptypes@, users@, amounts@, count as nat),
            c.wf(),
            c@ == batch_mint_spec(v0, assets@, mptypes@, users@, amounts@, i as nat),
        decreases count - i,
    {
        proof {
            lemma_batch_mint_ok_prefix(v0, assets@, mptypes@, users@, amounts@, (i + 1) as nat, count as nat);
        }
        let k = derive_pair_key(&assets[i], mptypes[i], &users[i]);
        save_pair(c, &assets[i], mptypes[i], &users[i]);
        assert(amounts@[i as int].wf());
        _mint(c, k.as_slice(), &amounts[i]);
        i = i + 1;
    }
    Ok(())
}

/// The reserve ratio of the maze pool, as `calculate_svrb` computes it.
pub fn calculateSVRB(v_maze: U256, v_usp: U256) -> (r: U256)
    requires
        v_maze.wf(),
        v_usp.wf(),
        svrb_ok(v_maze.value(), v_usp.value()),
    ensures
        r.wf(),
        r.value() == svrb_spec(v_maze.value(), v_usp.value()),
{
    calculate_svrb(&v_maze, &v_usp)
}

/// A batch registers pairs but never changes the pair count, and changes
/// rewards only by adding the batch's amounts.
pub proof fn lemma_batch_mint_steps(
    v: ContractView,
    assets: Seq<Address>,
    mptypes: Seq<u64>,
    users: Seq<Address>,
    amounts: Seq<U256>,
    n: nat,
)
    ensures
        batch_mint_spec(v, assets, mptypes, users, amounts, n).pairs_count == v.pairs_count,
        n > 0 ==> ({
            let w = batch_mint_spec(v, assets, mptypes, users, amounts, (n - 1) as nat);
            let key = batch_key(assets, mptypes, users, n - 1);
            batch_mint_spec(v, assets, mptypes, users, amounts, n).unclaimed == w.unclaimed.insert(
                key,
                amount_of(w.unclaimed, key) + amounts[n - 1].value(),
            )
        }),
    decreases n,
{
    if n > 0 {
        lemma_batch_mint_steps(v, assets, mptypes, users, amounts, (n - 1) as nat);
    }
}

/// Whether a batch mints without overflow, found without minting: the
/// running reward of every pair the batch touches is kept aside.
pub fn batch_mint_fits(
    c: &Contract,
    count: usize,
    assets: &Vec<Address>,
    mptypes: &Vec<u64>,
    users: &Vec<Address>,
    amounts: &Vec<U256>,
) -> (r: bool)
    requires
        c.wf(),
        count <= assets.len(),
        count <= mptypes.len(),
        count <= users.len(),
        count <= amounts.len(),
        forall|i: int| 0 <= i < count ==> #[trigger] amounts@[i].wf(),
    ensures
        r == batch_mint_ok(c@, assets@, mptypes@, users@, amounts@, count as nat),
{
    let ghost v0 = c@;
    let full = pairs_count(c) == u64::MAX;
    let mut totals: Store<U256> = Store::new("totals");
    let mut i: usize = 0;
    while i < count
        invariant
            i <= count,
            count <= assets.len(),
            count <= mptypes.len(),
            count <= users.len(),
            count <= amounts.len(),
            c.wf(),
            v0 == c@,
            full == (v0.pairs_count == u64::MAX),
            full ==> batch_mint_spec(v0, assets@, mptypes@, users@, amounts@, i as nat).pair_index
                == v0.pair_index,
            forall|j: int| 0 <= j < count ==> #[trigger] amounts@[j].wf(),
            forall|k: Seq<u8>| #[trigger] totals@.contains_key(k) ==> totals@[k].wf(),
            batch_mint_ok(v0, assets@, mptypes@, users@, amounts@, i as nat),
            forall|k: Seq<u8>|
                #[trigger] amount_of(batch_mint_spec(v0, assets@, mptypes@, users@, amounts@, i as nat).unclaimed, k)
                    == if totals@.contains_key(k) {
                    totals@[k].value()
                } else {
                    amount_of(v0.unclaimed, k)
                },
        decreases count - i,
    {
        let key = derive_pair_key(&assets[i], mptypes[i], &users[i]);
        let before = match totals.get(key.as_slice()) {
            Some(t) => t.clone(),
            None => get_unclaimed(c, key.as_slice()),
        };
        let ghost w = batch_mint_spec(v0, assets@, mptypes@, users@, amounts@, i as nat);
        proof {
            lemma_batch_mint_steps(v0, assets@, mptypes@, users@, amounts@, (i + 1) as nat);
            lemma_batch_mint_steps(v0, assets@, mptypes@, users@, amounts@, i as nat);
            assert(amount_of(w.unclaimed, key@) == before.value());
            assert(amounts@[i as int].wf());
            assert(key@ == batch_key(assets@, mptypes@, users@, i as int));
        }
        if full && !pair_registered(c, key.as_slice()) {
            proof {
                if batch_mint_ok(v0, assets@, mptypes@, users@, amounts@, count as nat) {
                    lemma_batch_mint_ok_prefix(v0, assets@, mptypes@, users@, amounts@, (i + 1) as nat, count as nat);
                }
            }
            return false;
        }
        if !before.fits_add(&amounts[i]) {
            proof {
                assert(save_pair_spec(w, key@).0.unclaimed == w.unclaimed);
                assert(key@ == batch_key(assets@, mptypes@, users@, i as int));
                if batch_mint_ok(v0, assets@, mptypes@, users@, amounts@, count as nat) {
                    lemma_batch_mint_ok_prefix(v0, assets@, mptypes@, users@, amounts@, (i + 1) as nat, count as nat);
                }
            }
            return false;
        }
        let after = before.add(&amounts[i]);
        totals.insert(key.as_slice(), after);
        proof {
            let w2 = batch_mint_spec(v0, assets@, mptypes@, users@, amounts@, (i + 1) as nat);
            if full {
                assert(w.pair_index.contains_key(key@));
                assert(save_pair_spec(w, key@).0 == w);
                assert(w2.pair_index == v0.pair_index);
            }
            assert forall|k: Seq<u8>|
                #[trigger] amount_of(w2.unclaimed, k) == if totals@.contains_key(k) {
                    totals@[k].value()
                } else {
                    amount_of(v0.unclaimed, k)
                } by {
                if k != key@ {
                    assert(amount_of(w.unclaimed, k) == amount_of(w2.unclaimed, k));
                }
            }
        }
        i = i + 1;
    }
    true
}

} // verus!
