use crate::bytes::append;
use crate::bytes::be_bytes;
use crate::bytes::be_value;
use crate::bytes::i32_bits;
use crate::bytes::lemma_be_value_bound;
use crate::bytes::lemma_pow256_values;
use crate::bytes::read_be;
use crate::bytes::same_bytes;
use crate::bytes::write_be;
use crate::constants::KEY_SEPARATOR;
use crate::constants::NONE_ORDER_ID;
use crate::constants::NONE_TICK;
use crate::constants::NS_BAL;
use crate::constants::NS_FEEVAULT;
use crate::constants::NS_MARKETBEST;
use crate::constants::NS_NONCE;
use crate::constants::NS_ORDER;
use crate::constants::NS_ORDERNODE;
use crate::constants::NS_TICKNODE;
use crate::encoding::bits_of_signed;
use crate::errors::CoreError;
use crate::hash::keccak256;
use crate::hash::keccak_digest;
use crate::merkle::apply_proof;
use crate::merkle::verify_proof;
use crate::merkle::Proof;
use crate::tree::proof_of;
use crate::tree::tree_root;
use crate::tree::SparseMerkleTree;
use crate::types::Balance;
use crate::types::FeeVault;
use crate::types::MarketBest;
use crate::types::Order;
use crate::types::OrderNode;
use crate::types::TickNode;
use crate::wide::U256;
use crate::steps::has_cause;
use crate::steps::outcome;
use crate::steps::Cause;
use crate::steps::get_balance_run;
use crate::steps::get_nonce_run;
use crate::steps::get_order_run;
use crate::steps::get_order_node_run;
use crate::steps::get_tick_node_run;
use crate::steps::get_market_best_run;
use crate::steps::get_fee_vault_run;
use crate::steps::set_balance_run;
use crate::steps::set_nonce_run;
use crate::steps::set_order_run;
use crate::steps::set_order_node_run;
use crate::steps::set_tick_node_run;
use crate::steps::set_market_best_run;
use crate::steps::set_fee_vault_run;
use vstd::prelude::*;

verus! {

/// The bytes of an optional byte string.
pub open spec fn option_bytes(value: Option<Vec<u8>>) -> Option<Seq<u8>> {
    match value {
        Some(v) => Some(v@),
        None => None,
    }
}

/// What `store` holds at `key`: `None` when the key is absent.
pub open spec fn lookup(store: Map<Seq<u8>, Seq<u8>>, key: Seq<u8>) -> Option<Seq<u8>> {
    if store.contains_key(key) {
        Some(store[key])
    } else {
        None
    }
}

/// `store` with `value` at `key`, or without `key` when `value` is `None`.
pub open spec fn store_put(store: Map<Seq<u8>, Seq<u8>>, key: Seq<u8>, value: Option<Seq<u8>>) -> Map<
    Seq<u8>,
    Seq<u8>,
> {
    match value {
        Some(v) => store.insert(key, v),
        None => store.remove(key),
    }
}

/// Whether what a read handed out is the outcome `step`: the bytes or
/// their absence on success, and an error of the kind on failure.
pub open spec fn read_outcome(
    r: Result<Option<Vec<u8>>, CoreError>,
    step: Result<Option<Seq<u8>>, Cause>,
) -> bool {
    match r {
        Ok(value) => step == Ok::<Option<Seq<u8>>, Cause>(option_bytes(value)),
        Err(e) => step is Err && has_cause(e, step->Err_0),
    }
}

/// Access to the key-value state, one key at a time.
///
/// An accessor stands for some contents. A read hands out a value for a
/// key; a write replaces it. An accessor that cannot vouch for what it
/// hands out keeps count: it stays coherent only as long as every value
/// handed out was the one its contents held at that moment.
pub trait StateAccess {
    /// What of the accessor decides its answers.
    type Model;

    /// What decides the accessor's answers, as it stands.
    spec fn model(&self) -> Self::Model;

    /// What a read of `key` does to an accessor at `m`: where it stands
    /// afterwards, and the value handed out, or the kind of the error
    /// when the read fails.
    spec fn read_step(m: Self::Model, key: Seq<u8>) -> (
        Self::Model,
        Result<Option<Seq<u8>>, Cause>,
    );

    /// What a write of `value` at `key` does to an accessor at `m`: where
    /// it stands afterwards, and the kind of the error when the write
    /// fails.
    spec fn write_step(m: Self::Model, key: Seq<u8>, value: Option<Seq<u8>>) -> (
        Self::Model,
        Result<(), Cause>,
    );

    /// The contents that the accessor stands for.
    spec fn contents(&self) -> Map<Seq<u8>, Seq<u8>>;

    /// Whether every call so far succeeded and every value handed out
    /// agreed with the contents.
    spec fn coherent(&self) -> bool;

    /// Whether every call will keep the accessor as it is in this respect:
    /// an accessor that is steady stays steady. One that is coherent by
    /// what it is made of, and not by what it is handed, can say so here.
    spec fn steady(&self) -> bool;

    /// What the accessor started from; no call changes it.
    spec fn anchor(&self) -> Seq<u8>;

    /// Reads the value at `key`. The contents stay as they are. If the
    /// accessor is still coherent afterwards, the call succeeded and the
    /// value is what the contents hold at the key.
    fn read_value(&mut self, key: [u8; 32]) -> (r: Result<Option<Vec<u8>>, CoreError>)
        ensures
            final(self).model() == Self::read_step(old(self).model(), key@).0,
            read_outcome(r, Self::read_step(old(self).model(), key@).1),
            final(self).contents() == old(self).contents(),
            final(self).coherent() ==> old(self).coherent(),
            old(self).steady() ==> final(self).steady(),
            final(self).anchor() == old(self).anchor(),
            final(self).coherent() ==> r is Ok,
            r matches Ok(value) ==> (final(self).coherent() ==> option_bytes(value) == lookup(
                old(self).contents(),
                key@,
            )),
    ;

    /// Writes `value` at `key`, or removes the key when `value` is `None`.
    /// On failure the contents stay as they are and the accessor is no
    /// longer coherent.
    fn write_value(&mut self, key: [u8; 32], value: Option<Vec<u8>>) -> (r: Result<(), CoreError>)
        ensures
            final(self).model() == Self::write_step(old(self).model(), key@, option_bytes(value)).0,
            outcome(r, Self::write_step(old(self).model(), key@, option_bytes(value)).1),
            final(self).coherent() ==> old(self).coherent(),
            old(self).steady() ==> final(self).steady(),
            final(self).anchor() == old(self).anchor(),
            final(self).coherent() ==> r is Ok,
            r is Ok ==> final(self).contents() == store_put(
                old(self).contents(),
                key@,
                option_bytes(value),
            ),
            r is Err ==> final(self).contents() == old(self).contents(),
    ;
}

/// The key of the balance of `account` in `asset`.
pub open spec fn balance_key(account: Seq<u8>, asset: Seq<u8>) -> Seq<u8> {
    keccak_digest(NS_BAL@ + seq![KEY_SEPARATOR] + account + asset)
}

/// The key of the nonce of `account`.
pub open spec fn nonce_key(account: Seq<u8>) -> Seq<u8> {
    keccak_digest(NS_NONCE@ + seq![KEY_SEPARATOR] + account)
}

/// The key of the order `order_id`.
pub open spec fn order_key(order_id: Seq<u8>) -> Seq<u8> {
    keccak_digest(NS_ORDER@ + seq![KEY_SEPARATOR] + order_id)
}

/// The key of the queue links of the order `order_id`.
pub open spec fn order_node_key(order_id: Seq<u8>) -> Seq<u8> {
    keccak_digest(NS_ORDERNODE@ + seq![KEY_SEPARATOR] + order_id)
}

/// The key of the price level `tick` on side `side` of `market`.
pub open spec fn tick_node_key(market: Seq<u8>, side: u8, tick: i32) -> Seq<u8> {
    keccak_digest(
        NS_TICKNODE@ + seq![KEY_SEPARATOR] + market + seq![side] + be_bytes(i32_bits(tick), 4),
    )
}

/// The key of the best ticks of `market`.
pub open spec fn market_best_key(market: Seq<u8>) -> Seq<u8> {
    keccak_digest(NS_MARKETBEST@ + seq![KEY_SEPARATOR] + market)
}

/// The key of the fee vault of `asset`.
pub open spec fn fee_vault_key(asset: Seq<u8>) -> Seq<u8> {
    keccak_digest(NS_FEEVAULT@ + seq![KEY_SEPARATOR] + asset)
}

/// Starts a key preimage: the namespace label and the separator byte.
fn key_preimage(label: &[u8; 32]) -> (buf: Vec<u8>)
    ensures
        buf@ == label@ + seq![KEY_SEPARATOR],
{
    let mut buf: Vec<u8> = Vec::new();
    append(&mut buf, label.as_slice());
    buf.push(KEY_SEPARATOR);
    proof {
        assert(buf@ =~= label@ + seq![KEY_SEPARATOR]);
    }
    buf
}

pub fn key_balance(account: &[u8; 20], asset: &[u8; 32]) -> (key: [u8; 32])
    ensures
        key@ == balance_key(account@, asset@),
{
    let mut buf = key_preimage(&NS_BAL);
    append(&mut buf, account.as_slice());
    append(&mut buf, asset.as_slice());
    keccak256(buf.as_slice())
}

pub fn key_nonce(account: &[u8; 20]) -> (key: [u8; 32])
    ensures
        key@ == nonce_key(account@),
{
    let mut buf = key_preimage(&NS_NONCE);
    append(&mut buf, account.as_slice());
    keccak256(buf.as_slice())
}

pub fn key_order(order_id: &[u8; 32]) -> (key: [u8; 32])
    ensures
        key@ == order_key(order_id@),
{
    let mut buf = key_preimage(&NS_ORDER);
    append(&mut buf, order_id.as_slice());
    keccak256(buf.as_slice())
}

pub fn key_order_node(order_id: &[u8; 32]) -> (key: [u8; 32])
    ensures
        key@ == order_node_key(order_id@),
{
    let mut buf = key_preimage(&NS_ORDERNODE);
    append(&mut buf, order_id.as_slice());
    keccak256(buf.as_slice())
}

pub fn key_tick_node(market: &[u8; 32], side: u8, tick: i32) -> (key: [u8; 32])
    ensures
        key@ == tick_node_key(market@, side, tick),
{
    let mut buf = key_preimage(&NS_TICKNODE);
    append(&mut buf, market.as_slice());
    buf.push(side);
    write_be(&mut buf, bits_of_signed(tick) as u128, 4);
    proof {
        assert(buf@ =~= NS_TICKNODE@ + seq![KEY_SEPARATOR] + market@ + seq![side] + be_bytes(
            i32_bits(tick),
            4,
        ));
    }
    keccak256(buf.as_slice())
}

pub fn key_market_best(market: &[u8; 32]) -> (key: [u8; 32])
    ensures
        key@ == market_best_key(market@),
{
    let mut buf = key_preimage(&NS_MARKETBEST);
    append(&mut buf, market.as_slice());
    keccak256(buf.as_slice())
}

pub fn key_fee_vault(asset: &[u8; 32]) -> (key: [u8; 32])
    ensures
        key@ == fee_vault_key(asset@),
{
    let mut buf = key_preimage(&NS_FEEVAULT);
    append(&mut buf, asset.as_slice());
    keccak256(buf.as_slice())
}

/// Some contents whose tree has the root `root`, when there are any.
pub open spec fn committed_contents(root: Seq<u8>) -> Map<Seq<u8>, Seq<u8>> {
    choose|m: Map<Seq<u8>, Seq<u8>>| tree_root(m) == root
}

/// An accessor that answers from a queue of proofs, checks each against
/// the root it has reached, and moves the root with every write.
pub struct ProofState {
    /// The root that the next proof is checked against.
    pub root: [u8; 32],
    /// The proofs that have not been used yet, the next one first.
    pub proofs: Vec<Proof>,
    /// The keys of the accesses that succeeded, in their order.
    pub touched_keys: Vec<[u8; 32]>,
    /// The contents that the accessor stands for.
    pub shadow: Ghost<Map<Seq<u8>, Seq<u8>>>,
    /// Whether every access so far found its proof, and every proof used
    /// claimed what the contents held.
    pub agreed: Ghost<bool>,
}

impl ProofState {
    /// The proofs that have not been used yet, the next one first.
    pub open spec fn pending(&self) -> Seq<Proof> {
        self.proofs@
    }

    /// Whether the next proof serves an access to `key`: there is one, it
    /// names the key, it has 256 siblings and no value when it claims
    /// absence, and it folds to the current root.
    pub open spec fn serves(&self, key: Seq<u8>) -> bool {
        &&& self.pending().len() > 0
        &&& self.pending()[0].key@ == key
        &&& self.pending()[0].well_shaped()
        &&& self.pending()[0].root() == self.root@
    }

    /// Whether `e` is the error for a next proof that does not serve an
    /// access to `key`: `State` for another key, `Invalid` for a proof
    /// that is not well shaped, `State` for another root.
    pub open spec fn refusal(&self, key: Seq<u8>, e: CoreError) -> bool {
        if self.pending()[0].key@ != key {
            e is State
        } else if !self.pending()[0].well_shaped() {
            e is Invalid
        } else {
            e is State
        }
    }

    /// An accessor at `root` that will use `proofs` in their order. It
    /// stands for contents that `root` commits to.
    pub fn new(root: [u8; 32], proofs: Vec<Proof>) -> (state: Self)
        ensures
            state.model() == (ProofModel { root: root@, pending: proofs@, touched: Seq::empty() }),
            state.root == root,
            state.pending() == proofs@,
            state.touched_keys@.len() == 0,
            state.coherent(),
            state.contents() == committed_contents(root@),
    {
        let state = Self {
            root,
            proofs,
            touched_keys: Vec::new(),
            shadow: Ghost(committed_contents(root@)),
            agreed: Ghost(true),
        };
        proof {
            assert(state.touched_keys@ =~= Seq::<[u8; 32]>::empty());
        }
        state
    }

    /// Takes the next proof from the queue.
    fn next_proof(&mut self) -> (r: Result<Proof, CoreError>)
        ensures
            final(self).root == old(self).root,
            final(self).touched_keys == old(self).touched_keys,
            final(self).contents() == old(self).contents(),
            final(self).coherent() == (old(self).coherent() && r is Ok),
            match r {
                Ok(proof) => old(self).pending().len() > 0 && proof == old(self).pending()[0]
                    && final(self).pending() == old(self).pending().skip(1),
                Err(e) => e is State && old(self).pending().len() == 0 && final(self).pending()
                    == old(self).pending(),
            },
    {
        if self.proofs.len() == 0 {
            proof {
                self.agreed = Ghost(false);
            }
            return Err(CoreError::State("missing proof"));
        }
        let proof = self.proofs.remove(0);
        proof {
            assert(self.proofs@ =~= old(self).proofs@.skip(1));
        }
        Ok(proof)
    }

    /// How many proofs have not been used yet.
    pub fn remaining_proofs(&self) -> (n: usize)
        ensures
            n == self.pending().len(),
    {
        self.proofs.len()
    }
}

/// What decides the answers of a `ProofState`: the root it has reached,
/// the proofs not used yet, and the keys of the accesses that succeeded.
pub ghost struct ProofModel {
    pub root: Seq<u8>,
    pub pending: Seq<Proof>,
    pub touched: Seq<[u8; 32]>,
}

/// Whether the first of `pending` serves an access to `key` at `root`:
/// there is one, it names the key, it is well shaped, and it folds to
/// the root.
pub open spec fn first_serves(root: Seq<u8>, pending: Seq<Proof>, key: Seq<u8>) -> bool {
    &&& pending.len() > 0
    &&& pending[0].key@ == key
    &&& pending[0].well_shaped()
    &&& pending[0].root() == root
}

/// The kind of the error for a next proof that does not serve an access
/// to `key`: `Invalid` for a proof that names the key and is not well
/// shaped, and `State` for a missing proof, another key or another root.
pub open spec fn refused(pending: Seq<Proof>, key: Seq<u8>) -> Cause {
    if pending.len() > 0 && pending[0].key@ == key && !pending[0].well_shaped() {
        Cause::Invalid
    } else {
        Cause::State
    }
}

/// The 32 bytes of a key as an array.
pub open spec fn key_array(key: Seq<u8>) -> [u8; 32] {
    choose|k: [u8; 32]| k@ == key
}

/// The array of the bytes of a key is the key.
pub proof fn lemma_key_array(key: [u8; 32])
    ensures
        key_array(key@) == key,
{
    let k = key_array(key@);
    assert(k@ == key@);
    assert(k =~= key);
}

impl StateAccess for ProofState {
    type Model = ProofModel;

    open spec fn model(&self) -> ProofModel {
        ProofModel { root: self.root@, pending: self.proofs@, touched: self.touched_keys@ }
    }

    /// The next proof is used up, if there is one. Where it serves the
    /// read, the key is noted and the value is what the proof claims.
    open spec fn read_step(m: ProofModel, key: Seq<u8>) -> (
        ProofModel,
        Result<Option<Seq<u8>>, Cause>,
    ) {
        let rest = if m.pending.len() > 0 {
            m.pending.skip(1)
        } else {
            m.pending
        };
        if first_serves(m.root, m.pending, key) {
            (
                ProofModel { root: m.root, pending: rest, touched: m.touched.push(key_array(key)) },
                Ok(m.pending[0].claimed()),
            )
        } else {
            (
                ProofModel { root: m.root, pending: rest, touched: m.touched },
                Err(refused(m.pending, key)),
            )
        }
    }

    /// The next proof is used up, if there is one. Where it serves the
    /// write, the key is noted and the root becomes the one that the
    /// proof folds to with the value at its leaf.
    open spec fn write_step(m: ProofModel, key: Seq<u8>, value: Option<Seq<u8>>) -> (
        ProofModel,
        Result<(), Cause>,
    ) {
        let rest = if m.pending.len() > 0 {
            m.pending.skip(1)
        } else {
            m.pending
        };
        if first_serves(m.root, m.pending, key) {
            (
                ProofModel {
                    root: m.pending[0].root_with(value),
                    pending: rest,
                    touched: m.touched.push(key_array(key)),
                },
                Ok(()),
            )
        } else {
            (
                ProofModel { root: m.root, pending: rest, touched: m.touched },
                Err(refused(m.pending, key)),
            )
        }
    }

    open spec fn contents(&self) -> Map<Seq<u8>, Seq<u8>> {
        self.shadow@
    }

    open spec fn coherent(&self) -> bool {
        self.agreed@
    }

    /// Never: whether the accessor stays coherent is up to the proofs.
    open spec fn steady(&self) -> bool {
        false
    }

    /// Nothing: the root it starts from is the root it is made with.
    open spec fn anchor(&self) -> Seq<u8> {
        Seq::empty()
    }

    /// Uses the next proof: it must name `key` and fold to the current
    /// root. The root stays, the key is noted as touched, and the value is
    /// what the proof claims. On failure the proof is used up all the same.
    fn read_value(&mut self, key: [u8; 32]) -> (r: Result<Option<Vec<u8>>, CoreError>)
        ensures
            final(self).root == old(self).root,
            old(self).pending().len() == 0 ==> r is Err && final(self).pending() == old(
                self,
            ).pending(),
            old(self).pending().len() > 0 ==> final(self).pending() == old(self).pending().skip(1),
            final(self).coherent() == (old(self).coherent() && r is Ok && old(
                self,
            ).pending()[0].claimed() == lookup(old(self).contents(), key@)),
            match r {
                Ok(value) => {
                    &&& old(self).serves(key@)
                    &&& option_bytes(value) == old(self).pending()[0].claimed()
                    &&& final(self).touched_keys@ == old(self).touched_keys@.push(key)
                },
                Err(e) => {
                    &&& !old(self).serves(key@)
                    &&& final(self).touched_keys == old(self).touched_keys
                    &&& old(self).pending().len() > 0 ==> old(self).refusal(key@, e)
                },
            },
    {
        let proof = self.next_proof()?;
        if !same_bytes(proof.key.as_slice(), key.as_slice()) {
            proof {
                self.agreed = Ghost(false);
            }
            return Err(CoreError::State("proof key mismatch"));
        }
        match verify_proof(&self.root, &proof) {
            Ok(_) => {},
            Err(e) => {
                proof {
                    self.agreed = Ghost(false);
                }
                return Err(e);
            },
        }
        self.touched_keys.push(key);
        proof {
            lemma_key_array(key);
            self.agreed = Ghost(self.agreed@ && proof.claimed() == lookup(self.shadow@, key@));
        }
        if proof.present {
            Ok(Some(proof.value))
        } else {
            Ok(None)
        }
    }

    /// Uses the next proof: it must name `key` and fold to the current
    /// root. The root becomes the one the proof folds to with `value` at
    /// its leaf, and the key is noted as touched. On failure the root
    /// stays and the proof is used up all the same.
    fn write_value(&mut self, key: [u8; 32], value: Option<Vec<u8>>) -> (r: Result<(), CoreError>)
        ensures
            old(self).pending().len() == 0 ==> r is Err && final(self).pending() == old(
                self,
            ).pending(),
            old(self).pending().len() > 0 ==> final(self).pending() == old(self).pending().skip(1),
            final(self).coherent() == (old(self).coherent() && r is Ok && old(
                self,
            ).pending()[0].claimed() == lookup(old(self).contents(), key@)),
            match r {
                Ok(()) => {
                    &&& old(self).serves(key@)
                    &&& final(self).root@ == old(self).pending()[0].root_with(option_bytes(value))
                    &&& final(self).touched_keys@ == old(self).touched_keys@.push(key)
                },
                Err(e) => {
                    &&& !old(self).serves(key@)
                    &&& final(self).root == old(self).root
                    &&& final(self).touched_keys == old(self).touched_keys
                    &&& old(self).pending().len() > 0 ==> old(self).refusal(key@, e)
                },
            },
    {
        let proof = self.next_proof()?;
        if !same_bytes(proof.key.as_slice(), key.as_slice()) {
            proof {
                self.agreed = Ghost(false);
            }
            return Err(CoreError::State("proof key mismatch"));
        }
        let ghost written = option_bytes(value);
        let new_root = match apply_proof(&self.root, &proof, value) {
            Ok(root) => root,
            Err(e) => {
                proof {
                    self.agreed = Ghost(false);
                }
                return Err(e);
            },
        };
        self.root = new_root;
        self.touched_keys.push(key);
        proof {
            lemma_key_array(key);
            self.agreed = Ghost(self.agreed@ && proof.claimed() == lookup(self.shadow@, key@));
            self.shadow = Ghost(store_put(self.shadow@, key@, written));
        }
        Ok(())
    }
}

/// A proof recorded for an access replays it.
///
/// When `proof` is the proof of a tree for a key, a `ProofState` at the
/// root of the tree whose next proof it is serves a read of the key with
/// what the tree holds, and serves a write of the key and arrives at the
/// root of the tree after the write. The proof is used up, and the key
/// is noted as touched.
pub proof fn lemma_recorded_proof_replays(
    proof: Proof,
    entries: Map<Seq<u8>, Seq<u8>>,
    later: Seq<Proof>,
    touched: Seq<[u8; 32]>,
    value: Option<Seq<u8>>,
)
    requires
        proof_of(proof, entries),
    ensures
        ({
            let at = ProofModel {
                root: tree_root(entries),
                pending: seq![proof] + later,
                touched,
            };
            &&& ProofState::read_step(at, proof.key@) == (
                ProofModel {
                    root: tree_root(entries),
                    pending: later,
                    touched: touched.push(key_array(proof.key@)),
                },
                Ok::<Option<Seq<u8>>, Cause>(lookup(entries, proof.key@)),
            )
            &&& ProofState::write_step(at, proof.key@, value) == (
                ProofModel {
                    root: tree_root(store_put(entries, proof.key@, value)),
                    pending: later,
                    touched: touched.push(key_array(proof.key@)),
                },
                Ok::<(), Cause>(()),
            )
        }),
{
    crate::tree::lemma_proof_verifies(proof, entries);
    crate::tree::lemma_update_root(proof, entries, value);
    let pending = seq![proof] + later;
    assert(pending[0] == proof);
    assert(pending.skip(1) =~= later);
}

/// An accessor over a materialised tree that records, for every access,
/// the proof that a `ProofState` will need to repeat it.
pub struct RecordingState {
    /// The root that reads are checked against: the tree's root after
    /// every write.
    pub root: [u8; 32],
    /// The proofs recorded so far, in the order of the accesses.
    pub proofs: Vec<Proof>,
    /// The tree that the accesses go to.
    pub tree: SparseMerkleTree,
    /// Whether every read so far found the recorded root to be the root
    /// of the tree.
    pub faithful: Ghost<bool>,
    /// The accesses made so far, in their order.
    pub log: Ghost<Seq<Access>>,
    /// The root of the tree when the recording began.
    pub origin: Ghost<Seq<u8>>,
}

impl RecordingState {
    pub fn new(tree: SparseMerkleTree) -> (state: Self)
        ensures
            state.tree == tree,
            state.root@ == tree_root(tree.entries()),
            state.proofs@.len() == 0,
            state.model() == (RecordModel {
                entries: tree.entries(),
                root: tree_root(tree.entries()),
                log: Seq::empty(),
            }),
            state.anchor() == tree_root(tree.entries()),
            state.steady(),
            state.coherent(),
            state.contents() == tree.entries(),
    {
        let root = tree.root();
        let state = Self {
            root,
            proofs: Vec::new(),
            tree,
            faithful: Ghost(true),
            log: Ghost(Seq::empty()),
            origin: Ghost(root@),
        };
        proof {
            assert(state.proofs@.len() == 0);
        }
        state
    }
}

/// One access: a read of a key, or a write of a value at a key.
pub ghost struct Access {
    pub key: Seq<u8>,
    pub written: Option<Option<Seq<u8>>>,
}

/// The root that a `ProofState` at `root` reaches when it makes `access`
/// with `proof` as its next proof, or nothing when the proof does not
/// serve the access.
pub open spec fn access_step(root: Seq<u8>, proof: Proof, access: Access) -> Option<Seq<u8>> {
    let at = ProofModel { root, pending: seq![proof], touched: Seq::empty() };
    match access.written {
        None => {
            let step = ProofState::read_step(at, access.key);
            if step.1 is Ok {
                Some(step.0.root)
            } else {
                None
            }
        },
        Some(value) => {
            let step = ProofState::write_step(at, access.key, value);
            if step.1 is Ok {
                Some(step.0.root)
            } else {
                None
            }
        },
    }
}

/// The root that a `ProofState` at `root` reaches when it makes the
/// accesses of `log` in their order, each with the proof of `proofs` at
/// its place: the fold of the proofs over the root. Nothing when there
/// is not one proof for each access or a proof does not serve its
/// access.
pub open spec fn fold_accesses(root: Seq<u8>, proofs: Seq<Proof>, log: Seq<Access>) -> Option<
    Seq<u8>,
>
    decreases log.len(),
{
    if log.len() != proofs.len() {
        None
    } else if log.len() == 0 {
        Some(root)
    } else {
        match fold_accesses(root, proofs.drop_last(), log.drop_last()) {
            Some(reached) => access_step(reached, proofs.last(), log.last()),
            None => None,
        }
    }
}

/// What decides the answers of a `RecordingState`: what its tree holds,
/// and the root that reads are checked against; and with them the
/// accesses made so far.
pub ghost struct RecordModel {
    pub entries: Map<Seq<u8>, Seq<u8>>,
    pub root: Seq<u8>,
    pub log: Seq<Access>,
}

impl StateAccess for RecordingState {
    type Model = RecordModel;

    open spec fn model(&self) -> RecordModel {
        RecordModel { entries: self.tree.entries(), root: self.root@, log: self.log@ }
    }

    /// A read hands out what the tree holds, and fails when the root is
    /// not the root of the tree.
    open spec fn read_step(m: RecordModel, key: Seq<u8>) -> (
        RecordModel,
        Result<Option<Seq<u8>>, Cause>,
    ) {
        (
            RecordModel {
                entries: m.entries,
                root: m.root,
                log: m.log.push(Access { key, written: None }),
            },
            if m.root == tree_root(m.entries) {
                Ok(lookup(m.entries, key))
            } else {
                Err(Cause::State)
            },
        )
    }

    /// A write changes the tree and takes its new root.
    open spec fn write_step(m: RecordModel, key: Seq<u8>, value: Option<Seq<u8>>) -> (
        RecordModel,
        Result<(), Cause>,
    ) {
        let entries = store_put(m.entries, key, value);
        (
            RecordModel {
                entries,
                root: tree_root(entries),
                log: m.log.push(Access { key, written: Some(value) }),
            },
            Ok(()),
        )
    }

    open spec fn contents(&self) -> Map<Seq<u8>, Seq<u8>> {
        self.tree.entries()
    }

    open spec fn coherent(&self) -> bool {
        self.faithful@
    }

    /// Coherent so far, with the recorded root the root of the tree, and
    /// with proofs recorded that fold over the root of the beginning to
    /// the recorded root: every read will then succeed, and every access
    /// keeps all of this so.
    open spec fn steady(&self) -> bool {
        &&& self.faithful@
        &&& self.root@ == tree_root(self.tree.entries())
        &&& fold_accesses(self.origin@, self.proofs@, self.log@) == Some(self.root@)
    }

    /// The root of the tree when the recording began.
    open spec fn anchor(&self) -> Seq<u8> {
        self.origin@
    }

    /// Records the tree's proof for `key` and hands out what the tree
    /// holds there. Fails, with the proof recorded all the same, when the
    /// recorded root is not the root of the tree.
    fn read_value(&mut self, key: [u8; 32]) -> (r: Result<Option<Vec<u8>>, CoreError>)
        ensures
            final(self).root == old(self).root,
            final(self).proofs@.len() == old(self).proofs@.len() + 1,
            final(self).proofs@.drop_last() == old(self).proofs@,
            final(self).proofs@.last().key == key,
            proof_of(final(self).proofs@.last(), old(self).contents()),
            r is Ok <==> old(self).root@ == tree_root(old(self).contents()),
            final(self).coherent() == (old(self).coherent() && r is Ok),
            r matches Ok(value) ==> option_bytes(value) == lookup(old(self).contents(), key@),
            r matches Ok(value) ==> final(self).proofs@.last().claimed() == option_bytes(value)
                && final(self).proofs@.last().root() == old(self).root@,
            r matches Err(e) ==> e is State,
    {
        let proof = self.tree.prove(key);
        let value = if proof.present {
            Some(proof.value.clone())
        } else {
            None
        };
        let checked = verify_proof(&self.root, &proof);
        proof {
            lemma_recorded_proof_replays(
                proof,
                self.tree.entries(),
                Seq::empty(),
                Seq::empty(),
                None,
            );
            assert(seq![proof] + Seq::<Proof>::empty() =~= seq![proof]);
        }
        self.proofs.push(proof);
        proof {
            let access = Access { key: key@, written: None };
            self.log = Ghost(self.log@.push(access));
            assert(self.proofs@.drop_last() =~= old(self).proofs@);
            assert(self.log@.drop_last() =~= old(self).log@);
        }
        match checked {
            Ok(_) => Ok(value),
            Err(e) => {
                proof {
                    self.faithful = Ghost(false);
                }
                Err(e)
            },
        }
    }

    /// Records the tree's proof for `key` as it is before the write, then
    /// changes the tree and takes its new root. Never fails. The new root
    /// is the one that the recorded proof folds to with the value written:
    /// a `ProofState` that replays the proof arrives at the same root.
    fn write_value(&mut self, key: [u8; 32], value: Option<Vec<u8>>) -> (r: Result<(), CoreError>)
        ensures
            r is Ok,
            final(self).coherent() == old(self).coherent(),
            final(self).root@ == tree_root(final(self).contents()),
            final(self).root@ == final(self).proofs@.last().root_with(option_bytes(value)),
            final(self).proofs@.len() == old(self).proofs@.len() + 1,
            final(self).proofs@.drop_last() == old(self).proofs@,
            final(self).proofs@.last().key == key,
            proof_of(final(self).proofs@.last(), old(self).contents()),
    {
        let proof = self.tree.prove(key);
        proof {
            crate::tree::lemma_update_root(proof, self.tree.entries(), option_bytes(value));
            lemma_recorded_proof_replays(
                proof,
                self.tree.entries(),
                Seq::empty(),
                Seq::empty(),
                option_bytes(value),
            );
            assert(seq![proof] + Seq::<Proof>::empty() =~= seq![proof]);
        }
        self.proofs.push(proof);
        proof {
            let access = Access { key: key@, written: Some(option_bytes(value)) };
            self.log = Ghost(self.log@.push(access));
            assert(self.proofs@.drop_last() =~= old(self).proofs@);
            assert(self.log@.drop_last() =~= old(self).log@);
        }
        self.tree.update(key, value);
        self.root = self.tree.root();
        Ok(())
    }
}

/// The balance that a stored value stands for: the empty balance when
/// nothing is stored, `None` when the bytes are no balance.
pub open spec fn balance_of(value: Option<Seq<u8>>) -> Option<Balance> {
    match value {
        Some(bytes) => Balance::decoded(bytes),
        None => Some(Balance { available: U256 { hi: 0, lo: 0 }, locked: U256 { hi: 0, lo: 0 } }),
    }
}

/// The nonce that a stored value stands for: 0 when nothing is stored,
/// `None` when the bytes are not eight long.
pub open spec fn nonce_of(value: Option<Seq<u8>>) -> Option<u64> {
    match value {
        Some(bytes) => if bytes.len() == 8 {
            Some(be_value(bytes) as u64)
        } else {
            None
        },
        None => Some(0u64),
    }
}

/// The order that a stored value stands for: no order when nothing is
/// stored, `None` when the bytes are no order.
pub open spec fn order_of(value: Option<Seq<u8>>) -> Option<Option<Order>> {
    match value {
        Some(bytes) => match Order::decoded(bytes) {
            Some(order) => Some(Some(order)),
            None => None,
        },
        None => Some(None),
    }
}

/// The queue links that a stored value stands for: no neighbours when
/// nothing is stored, `None` when the bytes are no order node.
pub open spec fn order_node_of(value: Option<Seq<u8>>) -> Option<OrderNode> {
    match value {
        Some(bytes) => OrderNode::decoded(bytes),
        None => Some(OrderNode { prev_order_id: NONE_ORDER_ID, next_order_id: NONE_ORDER_ID }),
    }
}

/// The price level that a stored value stands for: a level without
/// neighbours and orders when nothing is stored, `None` when the bytes
/// are no tick node.
pub open spec fn tick_node_of(value: Option<Seq<u8>>) -> Option<TickNode> {
    match value {
        Some(bytes) => TickNode::decoded(bytes),
        None => Some(
            TickNode {
                prev_tick: NONE_TICK,
                next_tick: NONE_TICK,
                head_order_id: NONE_ORDER_ID,
                tail_order_id: NONE_ORDER_ID,
            },
        ),
    }
}

/// The best ticks that a stored value stands for: none on either side
/// when nothing is stored, `None` when the bytes are no such record.
pub open spec fn market_best_of(value: Option<Seq<u8>>) -> Option<MarketBest> {
    match value {
        Some(bytes) => MarketBest::decoded(bytes),
        None => Some(MarketBest { best_bid: NONE_TICK, best_ask: NONE_TICK }),
    }
}

/// The vault that a stored value stands for: an empty vault when nothing
/// is stored, `None` when the bytes are no vault.
pub open spec fn fee_vault_of(value: Option<Seq<u8>>) -> Option<FeeVault> {
    match value {
        Some(bytes) => FeeVault::decoded(bytes),
        None => Some(FeeVault { total: U256 { hi: 0, lo: 0 } }),
    }
}

/// The balance of `account` in `asset` that `store` holds.
pub open spec fn stored_balance(store: Map<Seq<u8>, Seq<u8>>, account: Seq<u8>, asset: Seq<u8>) -> Option<
    Balance,
> {
    balance_of(lookup(store, balance_key(account, asset)))
}

/// The nonce of `account` that `store` holds.
pub open spec fn stored_nonce(store: Map<Seq<u8>, Seq<u8>>, account: Seq<u8>) -> Option<u64> {
    nonce_of(lookup(store, nonce_key(account)))
}

/// The order `order_id` that `store` holds.
pub open spec fn stored_order(store: Map<Seq<u8>, Seq<u8>>, order_id: Seq<u8>) -> Option<
    Option<Order>,
> {
    order_of(lookup(store, order_key(order_id)))
}

/// The queue links of the order `order_id` that `store` holds.
pub open spec fn stored_order_node(store: Map<Seq<u8>, Seq<u8>>, order_id: Seq<u8>) -> Option<
    OrderNode,
> {
    order_node_of(lookup(store, order_node_key(order_id)))
}

/// The price level `tick` on side `side` of `market` that `store` holds.
pub open spec fn stored_tick_node(
    store: Map<Seq<u8>, Seq<u8>>,
    market: Seq<u8>,
    side: u8,
    tick: i32,
) -> Option<TickNode> {
    tick_node_of(lookup(store, tick_node_key(market, side, tick)))
}

/// The best ticks of `market` that `store` holds.
pub open spec fn stored_market_best(store: Map<Seq<u8>, Seq<u8>>, market: Seq<u8>) -> Option<
    MarketBest,
> {
    market_best_of(lookup(store, market_best_key(market)))
}

/// The fee vault of `asset` that `store` holds.
pub open spec fn stored_fee_vault(store: Map<Seq<u8>, Seq<u8>>, asset: Seq<u8>) -> Option<
    FeeVault,
> {
    fee_vault_of(lookup(store, fee_vault_key(asset)))
}

/// Turns what a read handed out into a balance.
pub fn balance_from(value: Option<Vec<u8>>) -> (r: Result<Balance, CoreError>)
    ensures
        match r {
            Ok(b) => balance_of(option_bytes(value)) == Some(b),
            Err(e) => e is Decode && balance_of(option_bytes(value)) is None,
        },
{
    match value {
        None => Ok(Balance::empty()),
        Some(bytes) => Balance::decode(bytes.as_slice()),
    }
}

/// Turns what a read handed out into a nonce.
pub fn nonce_from(value: Option<Vec<u8>>) -> (r: Result<u64, CoreError>)
    ensures
        match r {
            Ok(n) => nonce_of(option_bytes(value)) == Some(n),
            Err(e) => e is Decode && nonce_of(option_bytes(value)) is None,
        },
{
    match value {
        None => Ok(0u64),
        Some(bytes) => {
            if bytes.len() != 8 {
                return Err(CoreError::Decode("invalid nonce length"));
            }
            proof {
                lemma_be_value_bound(bytes@);
                lemma_pow256_values();
            }
            Ok(read_be(bytes.as_slice()) as u64)
        },
    }
}

/// Turns what a read handed out into an order, if one is stored.
pub fn order_from(value: Option<Vec<u8>>) -> (r: Result<Option<Order>, CoreError>)
    ensures
        match r {
            Ok(o) => order_of(option_bytes(value)) == Some(o),
            Err(e) => e is Decode && order_of(option_bytes(value)) is None,
        },
{
    match value {
        None => Ok(None),
        Some(bytes) => match Order::decode(bytes.as_slice()) {
            Ok(order) => Ok(Some(order)),
            Err(e) => Err(e),
        },
    }
}

/// Turns what a read handed out into the queue links of an order.
pub fn order_node_from(value: Option<Vec<u8>>) -> (r: Result<OrderNode, CoreError>)
    ensures
        match r {
            Ok(n) => order_node_of(option_bytes(value)) == Some(n),
            Err(e) => e is Decode && order_node_of(option_bytes(value)) is None,
        },
{
    match value {
        None => Ok(OrderNode { prev_order_id: NONE_ORDER_ID, next_order_id: NONE_ORDER_ID }),
        Some(bytes) => OrderNode::decode(bytes.as_slice()),
    }
}

/// Turns what a read handed out into a price level.
pub fn tick_node_from(value: Option<Vec<u8>>) -> (r: Result<TickNode, CoreError>)
    ensures
        match r {
            Ok(n) => tick_node_of(option_bytes(value)) == Some(n),
            Err(e) => e is Decode && tick_node_of(option_bytes(value)) is None,
        },
{
    match value {
        None => Ok(
            TickNode {
                prev_tick: NONE_TICK,
                next_tick: NONE_TICK,
                head_order_id: NONE_ORDER_ID,
                tail_order_id: NONE_ORDER_ID,
            },
        ),
        Some(bytes) => TickNode::decode(bytes.as_slice()),
    }
}

/// Turns what a read handed out into the best ticks of a market.
pub fn market_best_from(value: Option<Vec<u8>>) -> (r: Result<MarketBest, CoreError>)
    ensures
        match r {
            Ok(b) => market_best_of(option_bytes(value)) == Some(b),
            Err(e) => e is Decode && market_best_of(option_bytes(value)) is None,
        },
{
    match value {
        None => Ok(MarketBest { best_bid: NONE_TICK, best_ask: NONE_TICK }),
        Some(bytes) => MarketBest::decode(bytes.as_slice()),
    }
}

/// Turns what a read handed out into a fee vault.
pub fn fee_vault_from(value: Option<Vec<u8>>) -> (r: Result<FeeVault, CoreError>)
    ensures
        match r {
            Ok(v) => fee_vault_of(option_bytes(value)) == Some(v),
            Err(e) => e is Decode && fee_vault_of(option_bytes(value)) is None,
        },
{
    match value {
        None => Ok(FeeVault { total: U256::zero() }),
        Some(bytes) => FeeVault::decode(bytes.as_slice()),
    }
}

/// Reads the balance of `account` in `asset`; the empty balance when none is stored.
pub fn get_balance<S: StateAccess>(state: &mut S, account: &[u8; 20], asset: &[u8; 32]) -> (r:
    Result<Balance, CoreError>)
    ensures
        final(state).model() == get_balance_run::<S>(old(state).model(), account@, asset@).0,
        outcome(r, get_balance_run::<S>(old(state).model(), account@, asset@).1),
        final(state).contents() == old(state).contents(),
        final(state).coherent() ==> old(state).coherent(),
        old(state).steady() ==> final(state).steady(),
        final(state).anchor() == old(state).anchor(),
        final(state).coherent() ==> (match r {
            Ok(b) => stored_balance(old(state).contents(), account@, asset@) == Some(b),
            Err(e) => e is Decode && stored_balance(
                old(state).contents(),
                account@,
                asset@,
            ) is None,
        }),
{
    let key = key_balance(account, asset);
    let value = state.read_value(key)?;
    balance_from(value)
}

/// Stores `balance` as the balance of `account` in `asset`.
pub fn set_balance<S: StateAccess>(
    state: &mut S,
    account: &[u8; 20],
    asset: &[u8; 32],
    balance: &Balance,
) -> (r: Result<(), CoreError>)
    ensures
        final(state).model() == set_balance_run::<S>(
            old(state).model(),
            account@, asset@,
            *balance,
        ).0,
        outcome(r, set_balance_run::<S>(
            old(state).model(),
            account@, asset@,
            *balance,
        ).1),
        final(state).coherent() ==> old(state).coherent(),
        old(state).steady() ==> final(state).steady(),
        final(state).anchor() == old(state).anchor(),
        final(state).coherent() ==> r is Ok,
        r is Ok ==> final(state).contents() == old(state).contents().insert(
            balance_key(account@, asset@),
            balance.encoded(),
        ),
        r is Err ==> final(state).contents() == old(state).contents(),
{
    let key = key_balance(account, asset);
    let bytes = balance.encode();
    state.write_value(key, Some(vstd::slice::slice_to_vec(bytes.as_slice())))
}

/// Reads the nonce of `account`; 0 when none is stored.
pub fn get_nonce<S: StateAccess>(state: &mut S, account: &[u8; 20]) -> (r: Result<u64, CoreError>)
    ensures
        final(state).model() == get_nonce_run::<S>(old(state).model(), account@).0,
        outcome(r, get_nonce_run::<S>(old(state).model(), account@).1),
        final(state).contents() == old(state).contents(),
        final(state).coherent() ==> old(state).coherent(),
        old(state).steady() ==> final(state).steady(),
        final(state).anchor() == old(state).anchor(),
        final(state).coherent() ==> (match r {
            Ok(n) => stored_nonce(old(state).contents(), account@) == Some(n),
            Err(e) => e is Decode && stored_nonce(old(state).contents(), account@) is None,
        }),
{
    let key = key_nonce(account);
    let value = state.read_value(key)?;
    nonce_from(value)
}

/// Stores `nonce` as the nonce of `account`, as eight big-endian bytes.
pub fn set_nonce<S: StateAccess>(state: &mut S, account: &[u8; 20], nonce: u64) -> (r: Result<
    (),
    CoreError,
>)
    ensures
        final(state).model() == set_nonce_run::<S>(
            old(state).model(),
            account@,
            nonce,
        ).0,
        outcome(r, set_nonce_run::<S>(
            old(state).model(),
            account@,
            nonce,
        ).1),
        final(state).coherent() ==> old(state).coherent(),
        old(state).steady() ==> final(state).steady(),
        final(state).anchor() == old(state).anchor(),
        final(state).coherent() ==> r is Ok,
        r is Ok ==> final(state).contents() == old(state).contents().insert(
            nonce_key(account@),
            be_bytes(nonce as nat, 8),
        ),
        r is Err ==> final(state).contents() == old(state).contents(),
{
    let key = key_nonce(account);
    let mut bytes: Vec<u8> = Vec::new();
    write_be(&mut bytes, nonce as u128, 8);
    proof {
        assert(bytes@ =~= be_bytes(nonce as nat, 8));
    }
    state.write_value(key, Some(bytes))
}

/// Reads the order `order_id`; `None` when none is stored.
pub fn get_order<S: StateAccess>(state: &mut S, order_id: &[u8; 32]) -> (r: Result<
    Option<Order>,
    CoreError,
>)
    ensures
        final(state).model() == get_order_run::<S>(old(state).model(), order_id@).0,
        outcome(r, get_order_run::<S>(old(state).model(), order_id@).1),
        final(state).contents() == old(state).contents(),
        final(state).coherent() ==> old(state).coherent(),
        old(state).steady() ==> final(state).steady(),
        final(state).anchor() == old(state).anchor(),
        final(state).coherent() ==> (match r {
            Ok(o) => stored_order(old(state).contents(), order_id@) == Some(o),
            Err(e) => e is Decode && stored_order(old(state).contents(), order_id@) is None,
        }),
{
    let key = key_order(order_id);
    let value = state.read_value(key)?;
    order_from(value)
}

/// Stores `order` as the order `order_id`.
pub fn set_order<S: StateAccess>(state: &mut S, order_id: &[u8; 32], order: &Order) -> (r: Result<
    (),
    CoreError,
>)
    ensures
        final(state).model() == set_order_run::<S>(
            old(state).model(),
            order_id@,
            *order,
        ).0,
        outcome(r, set_order_run::<S>(
            old(state).model(),
            order_id@,
            *order,
        ).1),
        final(state).coherent() ==> old(state).coherent(),
        old(state).steady() ==> final(state).steady(),
        final(state).anchor() == old(state).anchor(),
        final(state).coherent() ==> r is Ok,
        r is Ok ==> final(state).contents() == old(state).contents().insert(
            order_key(order_id@),
            order.encoded(),
        ),
        r is Err ==> final(state).contents() == old(state).contents(),
{
    let key = key_order(order_id);
    state.write_value(key, Some(order.encode()))
}

/// Reads the queue links of the order `order_id`; no neighbours when none are stored.
pub fn get_order_node<S: StateAccess>(state: &mut S, order_id: &[u8; 32]) -> (r: Result<
    OrderNode,
    CoreError,
>)
    ensures
        final(state).model() == get_order_node_run::<S>(old(state).model(), order_id@).0,
        outcome(r, get_order_node_run::<S>(old(state).model(), order_id@).1),
        final(state).contents() == old(state).contents(),
        final(state).coherent() ==> old(state).coherent(),
        old(state).steady() ==> final(state).steady(),
        final(state).anchor() == old(state).anchor(),
        final(state).coherent() ==> (match r {
            Ok(n) => stored_order_node(old(state).contents(), order_id@) == Some(n),
            Err(e) => e is Decode && stored_order_node(old(state).contents(), order_id@) is None,
        }),
{
    let key = key_order_node(order_id);
    let value = state.read_value(key)?;
    order_node_from(value)
}

/// Stores `node` as the queue links of the order `order_id`.
pub fn set_order_node<S: StateAccess>(state: &mut S, order_id: &[u8; 32], node: &OrderNode) -> (r:
    Result<(), CoreError>)
    ensures
        final(state).model() == set_order_node_run::<S>(
            old(state).model(),
            order_id@,
            *node,
        ).0,
        outcome(r, set_order_node_run::<S>(
            old(state).model(),
            order_id@,
            *node,
        ).1),
        final(state).coherent() ==> old(state).coherent(),
        old(state).steady() ==> final(state).steady(),
        final(state).anchor() == old(state).anchor(),
        final(state).coherent() ==> r is Ok,
        r is Ok ==> final(state).contents() == old(state).contents().insert(
            order_node_key(order_id@),
            node.encoded(),
        ),
        r is Err ==> final(state).contents() == old(state).contents(),
{
    let key = key_order_node(order_id);
    let bytes = node.encode();
    state.write_value(key, Some(vstd::slice::slice_to_vec(bytes.as_slice())))
}

/// Reads the price level `tick` on side `side` of `market`; a level
/// without neighbours and orders when none is stored.
pub fn get_tick_node<S: StateAccess>(state: &mut S, market: &[u8; 32], side: u8, tick: i32) -> (r:
    Result<TickNode, CoreError>)
    ensures
        final(state).model() == get_tick_node_run::<S>(old(state).model(), market@, side, tick).0,
        outcome(r, get_tick_node_run::<S>(old(state).model(), market@, side, tick).1),
        final(state).contents() == old(state).contents(),
        final(state).coherent() ==> old(state).coherent(),
        old(state).steady() ==> final(state).steady(),
        final(state).anchor() == old(state).anchor(),
        final(state).coherent() ==> (match r {
            Ok(n) => stored_tick_node(old(state).contents(), market@, side, tick) == Some(n),
            Err(e) => e is Decode && stored_tick_node(
                old(state).contents(),
                market@,
                side,
                tick,
            ) is None,
        }),
{
    let key = key_tick_node(market, side, tick);
    let value = state.read_value(key)?;
    tick_node_from(value)
}

/// Stores `node` as the price level `tick` on side `side` of `market`.
pub fn set_tick_node<S: StateAccess>(
    state: &mut S,
    market: &[u8; 32],
    side: u8,
    tick: i32,
    node: &TickNode,
) -> (r: Result<(), CoreError>)
    ensures
        final(state).model() == set_tick_node_run::<S>(
            old(state).model(),
            market@, side, tick,
            *node,
        ).0,
        outcome(r, set_tick_node_run::<S>(
            old(state).model(),
            market@, side, tick,
            *node,
        ).1),
        final(state).coherent() ==> old(state).coherent(),
        old(state).steady() ==> final(state).steady(),
        final(state).anchor() == old(state).anchor(),
        final(state).coherent() ==> r is Ok,
        r is Ok ==> final(state).contents() == old(state).contents().insert(
            tick_node_key(market@, side, tick),
            node.encoded(),
        ),
        r is Err ==> final(state).contents() == old(state).contents(),
{
    let key = key_tick_node(market, side, tick);
    let bytes = node.encode();
    state.write_value(key, Some(vstd::slice::slice_to_vec(bytes.as_slice())))
}

/// Reads the best ticks of `market`; none on either side when none are stored.
pub fn get_market_best<S: StateAccess>(state: &mut S, market: &[u8; 32]) -> (r: Result<
    MarketBest,
    CoreError,
>)
    ensures
        final(state).model() == get_market_best_run::<S>(old(state).model(), market@).0,
        outcome(r, get_market_best_run::<S>(old(state).model(), market@).1),
        final(state).contents() == old(state).contents(),
        final(state).coherent() ==> old(state).coherent(),
        old(state).steady() ==> final(state).steady(),
        final(state).anchor() == old(state).anchor(),
        final(state).coherent() ==> (match r {
            Ok(b) => stored_market_best(old(state).contents(), market@) == Some(b),
            Err(e) => e is Decode && stored_market_best(old(state).contents(), market@) is None,
        }),
{
    let key = key_market_best(market);
    let value = state.read_value(key)?;
    market_best_from(value)
}

/// Stores `best` as the best ticks of `market`.
pub fn set_market_best<S: StateAccess>(state: &mut S, market: &[u8; 32], best: &MarketBest) -> (r:
    Result<(), CoreError>)
    ensures
        final(state).model() == set_market_best_run::<S>(
            old(state).model(),
            market@,
            *best,
        ).0,
        outcome(r, set_market_best_run::<S>(
            old(state).model(),
            market@,
            *best,
        ).1),
        final(state).coherent() ==> old(state).coherent(),
        old(state).steady() ==> final(state).steady(),
        final(state).anchor() == old(state).anchor(),
        final(state).coherent() ==> r is Ok,
        r is Ok ==> final(state).contents() == old(state).contents().insert(
            market_best_key(market@),
            best.encoded(),
        ),
        r is Err ==> final(state).contents() == old(state).contents(),
{
    let key = key_market_best(market);
    let bytes = best.encode();
    state.write_value(key, Some(vstd::slice::slice_to_vec(bytes.as_slice())))
}

/// Reads the fee vault of `asset`; an empty vault when none is stored.
pub fn get_fee_vault<S: StateAccess>(state: &mut S, asset: &[u8; 32]) -> (r: Result<
    FeeVault,
    CoreError,
>)
    ensures
        final(state).model() == get_fee_vault_run::<S>(old(state).model(), asset@).0,
        outcome(r, get_fee_vault_run::<S>(old(state).model(), asset@).1),
        final(state).contents() == old(state).contents(),
        final(state).coherent() ==> old(state).coherent(),
        old(state).steady() ==> final(state).steady(),
        final(state).anchor() == old(state).anchor(),
        final(state).coherent() ==> (match r {
            Ok(v) => stored_fee_vault(old(state).contents(), asset@) == Some(v),
            Err(e) => e is Decode && stored_fee_vault(old(state).contents(), asset@) is None,
        }),
{
    let key = key_fee_vault(asset);
    let value = state.read_value(key)?;
    fee_vault_from(value)
}

/// Stores `fee` as the fee vault of `asset`.
pub fn set_fee_vault<S: StateAccess>(state: &mut S, asset: &[u8; 32], fee: &FeeVault) -> (r: Result<
    (),
    CoreError,
>)
    ensures
        final(state).model() == set_fee_vault_run::<S>(
            old(state).model(),
            asset@,
            *fee,
        ).0,
        outcome(r, set_fee_vault_run::<S>(
            old(state).model(),
            asset@,
            *fee,
        ).1),
        final(state).coherent() ==> old(state).coherent(),
        old(state).steady() ==> final(state).steady(),
        final(state).anchor() == old(state).anchor(),
        final(state).coherent() ==> r is Ok,
        r is Ok ==> final(state).contents() == old(state).contents().insert(
            fee_vault_key(asset@),
            fee.encoded(),
        ),
        r is Err ==> final(state).contents() == old(state).contents(),
{
    let key = key_fee_vault(asset);
    let bytes = fee.encode();
    state.write_value(key, Some(vstd::slice::slice_to_vec(bytes.as_slice())))
}

} // verus!
