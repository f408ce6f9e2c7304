//! The contract's storage: owner, chain id, harvest ratio limits, unclaimed
//! rewards per (asset, mining type, user) and the registry of those pairs.
use crate::address::{address_eq, address_eq_defined, Address, ADDRESS_SIZE};
use crate::context::Msg;
use crate::db::{written, Globals, Store};
use crate::digits::{append_bytes, copy_bytes, zeros};
use crate::u256::{u64_be, u64_to_be_bytes, U256};
use vstd::prelude::*;

verus! {

/// Why a call was refused.
#[derive(Debug, PartialEq, Eq, Structural, Clone, Copy)]
pub enum ContractError {
    /// The sender is not the owner.
    NotOwner,
}

/// The storage of the contract.
pub struct Contract {
    harvest_ratio: Store<U256>,
    pairs: Store<Vec<u8>>,
    pair_index: Store<u64>,
    unclaimed: Store<U256>,
    globals: Globals,
}

/// What the storage holds, with the defaults that reads give for unset
/// entries: the zero address, chain id 0, no pairs.
pub ghost struct ContractView {
    pub owner: Seq<u8>,
    pub chain_id: u64,
    pub pairs_count: u64,
    pub harvest_ratio: Map<Seq<u8>, nat>,
    pub unclaimed: Map<Seq<u8>, nat>,
    pub pairs: Map<u64, Seq<u8>>,
    pub pair_index: Map<Seq<u8>, u64>,
}

/// The stored number under `k`, zero when none is stored.
pub open spec fn amount_of(m: Map<Seq<u8>, nat>, k: Seq<u8>) -> nat {
    if m.contains_key(k) {
        m[k]
    } else {
        0
    }
}

impl View for Contract {
    type V = ContractView;

    closed spec fn view(&self) -> ContractView {
        ContractView {
            owner: match self.globals.owner {
                Some(a) => a.bytes(),
                None => zeros(ADDRESS_SIZE as nat),
            },
            chain_id: match self.globals.chain_id {
                Some(c) => c,
                None => 0,
            },
            pairs_count: match self.globals.pairs_count {
                Some(c) => c,
                None => 0,
            },
            harvest_ratio: Map::new(
                |k: Seq<u8>| self.harvest_ratio@.contains_key(k),
                |k: Seq<u8>| self.harvest_ratio@[k].value(),
            ),
            unclaimed: Map::new(
                |k: Seq<u8>| self.unclaimed@.contains_key(k),
                |k: Seq<u8>| self.unclaimed@[k].value(),
            ),
            pairs: Map::new(
                |i: u64| self.pairs@.contains_key(u64_be(i)),
                |i: u64| self.pairs@[u64_be(i)]@,
            ),
            pair_index: self.pair_index@,
        }
    }
}

impl Contract {
    /// Every stored amount is a well-formed `U256`.
    pub closed spec fn wf(&self) -> bool {
        &&& forall|k: Seq<u8>| #[trigger] self.harvest_ratio@.contains_key(k) ==> self.harvest_ratio@[k].wf()
        &&& forall|k: Seq<u8>| #[trigger] self.unclaimed@.contains_key(k) ==> self.unclaimed@[k].wf()
    }

    /// Storage in which nothing has been written.
    pub fn new() -> (r: Contract)
        ensures
            r.wf(),
            r@ == (ContractView {
                owner: zeros(ADDRESS_SIZE as nat),
                chain_id: 0,
                pairs_count: 0,
                harvest_ratio: Map::empty(),
                unclaimed: Map::empty(),
                pairs: Map::empty(),
                pair_index: Map::empty(),
            }),
    {
        let r = Contract {
            harvest_ratio: Store::new("_harvest_ratio"),
            pairs: Store::new("_pairs"),
            pair_index: Store::new("_pair_index"),
            unclaimed: Store::new("_unclaimed"),
            globals: Globals::new(),
        };
        proof {
            assert(r@.harvest_ratio =~= Map::empty());
            assert(r@.unclaimed =~= Map::empty());
            assert(r@.pairs =~= Map::empty());
        }
        r
    }
}

/// Everything the storage holds, as plain values: the single values, unset
/// or set, and each table as the writes that made it.
pub struct Snapshot {
    pub owner: Option<Address>,
    pub chain_id: Option<u64>,
    pub pairs_count: Option<u64>,
    pub harvest_ratio: Vec<(Vec<u8>, U256)>,
    pub pairs: Vec<(Vec<u8>, Vec<u8>)>,
    pub pair_index: Vec<(Vec<u8>, u64)>,
    pub unclaimed: Vec<(Vec<u8>, U256)>,
}

/// The storage a snapshot describes.
pub open spec fn snapshot_view(s: Snapshot) -> ContractView {
    let harvest_ratio = written(s.harvest_ratio@);
    let unclaimed = written(s.unclaimed@);
    let pairs = written(s.pairs@);
    ContractView {
        owner: match s.owner {
            Some(a) => a.bytes(),
            None => zeros(ADDRESS_SIZE as nat),
        },
        chain_id: match s.chain_id {
            Some(c) => c,
            None => 0,
        },
        pairs_count: match s.pairs_count {
            Some(c) => c,
            None => 0,
        },
        harvest_ratio: Map::new(|k: Seq<u8>| harvest_ratio.contains_key(k), |k: Seq<u8>| harvest_ratio[k].value()),
        unclaimed: Map::new(|k: Seq<u8>| unclaimed.contains_key(k), |k: Seq<u8>| unclaimed[k].value()),
        pairs: Map::new(|i: u64| pairs.contains_key(u64_be(i)), |i: u64| pairs[u64_be(i)]@),
        pair_index: written(s.pair_index@),
    }
}

/// Every amount a snapshot's tables hold is a well-formed `U256`.
pub open spec fn snapshot_ok(s: Snapshot) -> bool {
    &&& forall|k: Seq<u8>| #[trigger] written(s.harvest_ratio@).contains_key(k) ==> written(s.harvest_ratio@)[k].wf()
    &&& forall|k: Seq<u8>| #[trigger] written(s.unclaimed@).contains_key(k) ==> written(s.unclaimed@)[k].wf()
}

impl Contract {
    /// The storage as plain values, to be kept between calls.
    pub fn into_snapshot(self) -> (r: Snapshot)
        requires
            self.wf(),
        ensures
            snapshot_ok(r),
            snapshot_view(r) == self@,
    {
        let r = Snapshot {
            owner: self.globals.owner,
            chain_id: self.globals.chain_id,
            pairs_count: self.globals.pairs_count,
            harvest_ratio: self.harvest_ratio.into_entries(),
            pairs: self.pairs.into_entries(),
            pair_index: self.pair_index.into_entries(),
            unclaimed: self.unclaimed.into_entries(),
        };
        proof {
            assert(snapshot_view(r).harvest_ratio =~= self@.harvest_ratio);
            assert(snapshot_view(r).unclaimed =~= self@.unclaimed);
            assert(snapshot_view(r).pairs =~= self@.pairs);
        }
        r
    }

    /// The storage a snapshot describes.
    pub fn from_snapshot(s: Snapshot) -> (r: Contract)
        requires
            snapshot_ok(s),
        ensures
            r.wf(),
            r@ == snapshot_view(s),
    {
        let ghost g = s;
        let r = Contract {
            harvest_ratio: Store::from_entries("_harvest_ratio", s.harvest_ratio),
            pairs: Store::from_entries("_pairs", s.pairs),
            pair_index: Store::from_entries("_pair_index", s.pair_index),
            unclaimed: Store::from_entries("_unclaimed", s.unclaimed),
            globals: Globals { chain_id: s.chain_id, owner: s.owner, pairs_count: s.pairs_count },
        };
        proof {
            assert(r@.harvest_ratio =~= snapshot_view(g).harvest_ratio);
            assert(r@.unclaimed =~= snapshot_view(g).unclaimed);
            assert(r@.pairs =~= snapshot_view(g).pairs);
        }
        r
    }
}

/// The unclaimed reward of a pair; zero when none is stored.
pub fn get_unclaimed(c: &Contract, pair: &[u8]) -> (r: U256)
    requires
        c.wf(),
    ensures
        r.wf(),
        r.value() == amount_of(c@.unclaimed, pair@),
{
    match c.unclaimed.get(pair) {
        Some(v) => v.clone(),
        None => U256::zero(),
    }
}

/// Stores the unclaimed reward of a pair.
pub fn set_unclaimed(c: &mut Contract, pair: &[u8], amount: U256)
    requires
        old(c).wf(),
        amount.wf(),
    ensures
        final(c).wf(),
        final(c)@ == (ContractView { unclaimed: old(c)@.unclaimed.insert(pair@, amount.value()), ..old(c)@ }),
{
    let ghost v = amount.value();
    c.unclaimed.insert(pair, amount);
    proof {
        assert(c@.unclaimed =~= old(c)@.unclaimed.insert(pair@, v));
    }
}

/// The pair registered under index `i`; one must be.
pub fn get_pair_by_index(c: &Contract, i: u64) -> (r: Vec<u8>)
    requires
        c@.pairs.contains_key(i),
    ensures
        r@ == c@.pairs[i],
{
    let key = u64_to_be_bytes(i);
    match c.pairs.get(key.as_slice()) {
        Some(v) => copy_bytes(v.as_slice()),
        None => Vec::new(),
    }
}

pub fn get_chain_id(c: &Contract) -> (r: u64)
    ensures
        r == c@.chain_id,
{
    match c.globals.chain_id {
        Some(id) => id,
        None => 0,
    }
}

pub fn set_chain_id(c: &mut Contract, id: u64)
    requires
        old(c).wf(),
    ensures
        final(c).wf(),
        final(c)@ == (ContractView { chain_id: id, ..old(c)@ }),
{
    c.globals.chain_id = Some(id);
}

pub fn get_owner(c: &Contract) -> (r: Address)
    ensures
        r.bytes() == c@.owner,
{
    match &c.globals.owner {
        Some(a) => a.clone(),
        None => Address::default(),
    }
}

pub fn set_owner(c: &mut Contract, owner: &Address)
    requires
        old(c).wf(),
    ensures
        final(c).wf(),
        final(c)@ == (ContractView { owner: owner.bytes(), ..old(c)@ }),
{
    c.globals.owner = Some(owner.clone());
}

/// Whether the sender is the owner, by the address comparison: the owner's
/// bytes must begin the sender's.
pub open spec fn is_owner(v: ContractView, sender: Seq<u8>) -> bool {
    address_eq(v.owner, sender)
}

/// Refuses a sender that is not the owner.
pub fn require_owner(c: &Contract, msg: &Msg) -> (r: Result<(), ContractError>)
    requires
        address_eq_defined(c@.owner, msg.sender.bytes()),
    ensures
        r is Ok <==> is_owner(c@, msg.sender.bytes()),
        r is Err ==> r == Err::<(), ContractError>(ContractError::NotOwner),
{
    let owner = get_owner(c);
    if owner.eq(&msg.sender) {
        Ok(())
    } else {
        Err(ContractError::NotOwner)
    }
}

/// The harvest ratio limit of an asset, in rays; zero when none is stored.
pub fn get_harvest_ratio_limit(c: &Contract, asset: &Address) -> (r: U256)
    requires
        c.wf(),
    ensures
        r.wf(),
        r.value() == amount_of(c@.harvest_ratio, asset.bytes()),
{
    match c.harvest_ratio.get(asset.as_slice()) {
        Some(v) => v.clone(),
        None => U256::zero(),
    }
}

pub fn set_harvest_ratio_limit(c: &mut Contract, asset: &Address, limit: &U256)
    requires
        old(c).wf(),
        limit.wf(),
    ensures
        final(c).wf(),
        final(c)@ == (ContractView {
            harvest_ratio: old(c)@.harvest_ratio.insert(asset.bytes(), limit.value()),
            ..old(c)@
        }),
{
    c.harvest_ratio.insert(asset.as_slice(), limit.clone());
    proof {
        assert(c@.harvest_ratio =~= old(c)@.harvest_ratio.insert(asset.bytes(), limit.value()));
    }
}

/// The key of a pair: the asset's bytes, the mining type as eight
/// big-endian bytes, then the user's bytes.
pub open spec fn pair_key(asset: Seq<u8>, mptype: u64, user: Seq<u8>) -> Seq<u8> {
    asset + u64_be(mptype) + user
}

pub fn derive_pair_key(asset: &Address, mptype: u64, user: &Address) -> (r: Vec<u8>)
    ensures
        r@ == pair_key(asset.bytes(), mptype, user.bytes()),
{
    let mut r = copy_bytes(asset.as_slice());
    let t = u64_to_be_bytes(mptype);
    append_bytes(&mut r, t.as_slice());
    append_bytes(&mut r, user.as_slice());
    r
}

pub fn pairs_count(c: &Contract) -> (r: u64)
    ensures
        r == c@.pairs_count,
{
    match c.globals.pairs_count {
        Some(n) => n,
        None => 0,
    }
}

pub fn set_pairs_count(c: &mut Contract, n: u64)
    requires
        old(c).wf(),
    ensures
        final(c).wf(),
        final(c)@ == (ContractView { pairs_count: n, ..old(c)@ }),
{
    c.globals.pairs_count = Some(n);
}

/// Whether a pair key has an index registered.
pub(crate) fn pair_registered(c: &Contract, key: &[u8]) -> (r: bool)
    ensures
        r == c@.pair_index.contains_key(key@),
{
    c.pair_index.contains_key(key)
}

/// The storage after `save_pair` on a key: an index already registered for
/// the key stays; otherwise `pairs_count + 1` is registered both ways.
pub open spec fn save_pair_spec(v: ContractView, key: Seq<u8>) -> (ContractView, u64) {
    if v.pair_index.contains_key(key) {
        (v, v.pair_index[key])
    } else {
        let i = (v.pairs_count + 1) as u64;
        (ContractView { pair_index: v.pair_index.insert(key, i), pairs: v.pairs.insert(i, key), ..v }, i)
    }
}

/// Registers a pair and returns its index; an index already registered for
/// the pair is returned as it is.
pub fn save_pair(c: &mut Contract, asset: &Address, mptype: u64, user: &Address) -> (r: u64)
    requires
        old(c).wf(),
        !old(c)@.pair_index.contains_key(pair_key(asset.bytes(), mptype, user.bytes()))
            ==> old(c)@.pairs_count < u64::MAX,
    ensures
        final(c).wf(),
        (final(c)@, r) == save_pair_spec(old(c)@, pair_key(asset.bytes(), mptype, user.bytes())),
{
    let k = derive_pair_key(asset, mptype, user);
    match c.pair_index.get(k.as_slice()) {
        Some(n) => *n,
        None => {
            let i = pairs_count(c) + 1;
            c.pair_index.insert(k.as_slice(), i);
            let ik = u64_to_be_bytes(i);
            c.pairs.insert(ik.as_slice(), copy_bytes(k.as_slice()));
            proof {
                lemma_u64_be_injective();
                assert(c@.pairs =~= old(c)@.pairs.insert(i, k@));
            }
            i
        }
    }
}

/// Distinct numbers have distinct big-endian bytes.
pub proof fn lemma_u64_be_injective()
    ensures
        forall|a: u64, b: u64| #[trigger] u64_be(a) == #[trigger] u64_be(b) ==> a == b,
{
    assert forall|a: u64, b: u64| #[trigger] u64_be(a) == #[trigger] u64_be(b) implies a == b by {
        crate::u256::lemma_u64_be_value(a);
        crate::u256::lemma_u64_be_value(b);
    }
}

} // verus!
