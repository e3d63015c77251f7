use crate::bytes::append;
use crate::bytes::be_bytes;
use crate::bytes::same_bytes;
use crate::constants::BATCH_TAG;
use crate::encoding::Reader;
use crate::engine::apply_batch;
use crate::engine::batch_spec;
use crate::engine::BatchOutput;
use crate::engine::BatchState;
use crate::errors::CoreError;
use crate::hash::keccak256;
use crate::hash::keccak_digest;
use crate::input::GuestBundle;
use crate::input::GuestInput;
use crate::input::PublicInputs;
use crate::input::PublicInputsPartial;
use crate::input::Rules;
use crate::input::SignedMessage;
use crate::outputs::hashes;
use crate::outputs::merkle_root;
use crate::outputs::output_root;
use crate::state::committed_contents;
use crate::state::fold_accesses;
use crate::merkle::Proof;
use crate::merkle::SparseMerkleTree;
use crate::state::ProofModel;
use crate::state::ProofState;
use crate::state::RecordModel;
use crate::state::RecordingState;
use crate::state::StateAccess;
use crate::tree::tree_root;
use crate::types::FeeTotal;
use crate::types::TradeRecord;
use crate::verify::batch_digest;
use crate::verify::domain_separator;
use crate::verify::domain_separator_spec;
use crate::verify::joined;
use crate::verify::message_hash;
use crate::verify::message_hash_spec;
use crate::verify::rules_hash;
use crate::steps::batch_run;
use crate::steps::has_cause;
use crate::steps::Cause;
use crate::steps::Tally;
use vstd::prelude::*;

verus! {

/// What a batch commits to: the public inputs, and apart from them the
/// digest of the keys that were touched, in the order of the accesses.
#[derive(Clone, Copy, Debug)]
pub struct BatchCommitment {
    pub public: PublicInputs,
    pub touched_digest: [u8; 32],
}

/// The hashes of the messages under a domain separator, one after another.
pub open spec fn joined_message_hashes(domain: Seq<u8>, messages: Seq<SignedMessage>) -> Seq<u8>
    decreases messages.len(),
{
    if messages.len() == 0 {
        Seq::empty()
    } else {
        joined_message_hashes(domain, messages.drop_last()) + message_hash_spec(
            domain,
            messages.last().message,
        )
    }
}

/// The digest that binds a batch to its messages in their order:
/// `keccak(tag ∥ domain ∥ batch_seq ∥ keccak(message hashes))`.
pub open spec fn batch_digest_of(domain: Seq<u8>, batch_seq: u64, messages: Seq<SignedMessage>) -> Seq<
    u8,
> {
    keccak_digest(
        BATCH_TAG@ + domain + be_bytes(batch_seq as nat, 8) + keccak_digest(
            joined_message_hashes(domain, messages),
        ),
    )
}

/// Whether the commitments that an input declares are the ones computed
/// from it: the domain separator from chain, venue and market, the hash
/// of the rules, and the digest of the batch.
pub open spec fn commitments_match(input: GuestInput) -> bool {
    let domain = domain_separator_spec(input.chain_id, input.venue_id@, input.market_id@);
    &&& input.public.domain_separator@ == domain
    &&& input.public.rules_hash@ == keccak_digest(input.rules.encoded())
    &&& input.public.batch_digest@ == batch_digest_of(
        domain,
        input.public.batch_seq,
        input.messages@,
    )
}

/// The leaves of the trades: the hash of each record's encoding.
pub open spec fn trade_leaves(trades: Seq<TradeRecord>) -> Seq<Seq<u8>> {
    Seq::new(trades.len(), |i: int| keccak_digest(trades[i].encoded()))
}

/// The leaves of the fee totals: the hash of each total's encoding.
pub open spec fn fee_leaves(totals: Seq<FeeTotal>) -> Seq<Seq<u8>> {
    Seq::new(totals.len(), |i: int| keccak_digest(totals[i].encoded()))
}

/// Whether `c` is what a batch of `input` commits to when it ends at
/// `new_root` with the trades and fee totals given and the keys touched:
/// the declared public inputs are carried over, and the two output roots
/// and the digest of the touched keys are computed from the records.
pub open spec fn commits_to(
    c: BatchCommitment,
    input: GuestInput,
    new_root: [u8; 32],
    trades: Seq<TradeRecord>,
    totals: Seq<FeeTotal>,
    touched: Seq<[u8; 32]>,
) -> bool {
    &&& c.public.prev_root == input.public.prev_root
    &&& c.public.new_root == new_root
    &&& c.public.batch_digest == input.public.batch_digest
    &&& c.public.rules_hash == input.public.rules_hash
    &&& c.public.domain_separator == input.public.domain_separator
    &&& c.public.batch_seq == input.public.batch_seq
    &&& c.public.batch_timestamp == input.public.batch_timestamp
    &&& c.public.da_commitment == input.public.da_commitment
    &&& c.public.trades_root@ == output_root(trade_leaves(trades))
    &&& c.public.fees_root@ == output_root(fee_leaves(totals))
    &&& c.touched_digest@ == keccak_digest(joined(touched))
}

/// Whether `c` is the commitment of a run of the batch of `input` that
/// began with the contents `before` and ended in `state` with the trades
/// and fee totals given: no proof is pending, the commitment is computed
/// from the records, and if the state stayed coherent, contents, trades
/// and fee totals are the ones that `batch_spec` gives.
pub open spec fn ran_to(
    c: BatchCommitment,
    input: GuestInput,
    before: Map<Seq<u8>, Seq<u8>>,
    state: ProofState,
    trades: Seq<TradeRecord>,
    totals: Seq<FeeTotal>,
) -> bool {
    &&& state.pending().len() == 0
    &&& commits_to(c, input, state.root, trades, totals, state.touched_keys@)
    &&& state.coherent() ==> batch_spec(
        before,
        input.market_id,
        input.rules,
        input.public.domain_separator,
        input.messages@,
    ) == Some(BatchState { store: state.contents(), totals, trades })
}

/// The digest of a batch, from its messages: each message is hashed under
/// the domain separator, and the hashes go into `batch_digest`.
pub fn digest_of_messages(domain: &[u8; 32], batch_seq: u64, messages: &[SignedMessage]) -> (h: [
    u8;
    32
])
    ensures
        h@ == batch_digest_of(domain@, batch_seq, messages@),
{
    let mut msg_hashes: Vec<[u8; 32]> = Vec::new();
    let mut i: usize = 0;
    proof {
        assert(messages@.take(0) =~= Seq::<SignedMessage>::empty());
        assert(joined(msg_hashes@) =~= Seq::<u8>::empty());
    }
    while i < messages.len()
        invariant
            i <= messages@.len(),
            joined(msg_hashes@) == joined_message_hashes(domain@, messages@.take(i as int)),
        decreases messages@.len() - i,
    {
        let hash = message_hash(domain, &messages[i].message);
        proof {
            let next = messages@.take(i + 1);
            assert(next.drop_last() =~= messages@.take(i as int));
            assert(next.last() == messages@[i as int]);
            let grown = msg_hashes@.push(hash);
            assert(grown.drop_last() =~= msg_hashes@);
        }
        msg_hashes.push(hash);
        i += 1;
    }
    proof {
        assert(messages@.take(messages@.len() as int) =~= messages@);
    }
    batch_digest(domain, batch_seq, msg_hashes.as_slice())
}

/// The input of a batch with the commitments that it has to declare: the
/// domain separator, the hash of the rules and the digest of the batch
/// are computed from what is given, so that they match.
pub fn declare_input(
    prev_root: [u8; 32],
    chain_id: u64,
    venue_id: [u8; 32],
    market_id: [u8; 32],
    rules: Rules,
    messages: Vec<SignedMessage>,
    batch_seq: u64,
    batch_timestamp: u64,
    da_commitment: [u8; 32],
) -> (input: GuestInput)
    ensures
        commitments_match(input),
        input.public.prev_root == prev_root,
        input.public.batch_seq == batch_seq,
        input.public.batch_timestamp == batch_timestamp,
        input.public.da_commitment == da_commitment,
        input.chain_id == chain_id,
        input.venue_id == venue_id,
        input.market_id == market_id,
        input.rules == rules,
        input.messages == messages,
{
    let domain = domain_separator(chain_id, &venue_id, &market_id);
    let public = PublicInputsPartial {
        prev_root,
        batch_digest: digest_of_messages(&domain, batch_seq, messages.as_slice()),
        rules_hash: rules_hash(&rules),
        domain_separator: domain,
        batch_seq,
        batch_timestamp,
        da_commitment,
    };
    GuestInput { public, chain_id, venue_id, market_id, rules, messages }
}

/// What the recording of a batch on a tree leaves: what the batch
/// produced, the proofs of its accesses in their order, and the root of
/// the tree after the batch.
pub struct Recording {
    pub output: BatchOutput,
    pub proofs: Vec<Proof>,
    pub new_root: [u8; 32],
}

/// Applies a batch to a tree and records the proofs of its accesses.
///
/// The batch succeeds exactly when `batch_spec` gives a result from what
/// the tree holds; the trades and fee totals are then that result, and
/// the new root is the root of the tree over the contents of the result.
/// A failure has the kind of the step that failed. The recorded proofs
/// fold over the old root to the new root: a `ProofState` that makes the
/// accesses of the batch in their order, each with the proof recorded
/// for it, is served by every proof and arrives at the new root.
pub fn record_batch(
    tree: SparseMerkleTree,
    market_id: [u8; 32],
    rules: &Rules,
    domain_sep: [u8; 32],
    messages: &[SignedMessage],
) -> (r: Result<Recording, CoreError>)
    ensures
        match batch_spec(tree.entries(), market_id, *rules, domain_sep, messages@) {
            Some(b) => r is Ok && r->Ok_0.output.trades@ == b.trades
                && r->Ok_0.output.fee_totals@ == b.totals && r->Ok_0.new_root@ == tree_root(
                b.store,
            ),
            None => r is Err,
        },
        r is Ok ==> fold_accesses(
            tree_root(tree.entries()),
            r->Ok_0.proofs@,
            batch_run::<RecordingState>(
                (RecordModel {
                    entries: tree.entries(),
                    root: tree_root(tree.entries()),
                    log: Seq::empty(),
                }),
                market_id,
                *rules,
                domain_sep,
                messages@,
            ).0.log,
        ) == Some(r->Ok_0.new_root@),
        r matches Err(e) ==> has_cause(
            e,
            batch_run::<RecordingState>(
                (RecordModel {
                    entries: tree.entries(),
                    root: tree_root(tree.entries()),
                    log: Seq::empty(),
                }),
                market_id,
                *rules,
                domain_sep,
                messages@,
            ).1->Err_0,
        ),
{
    let mut state = RecordingState::new(tree);
    let output = apply_batch(&mut state, market_id, rules, domain_sep, messages)?;
    Ok(Recording { output, proofs: state.proofs, new_root: state.root })
}

/// Recomputes the commitments of an input and compares them with the
/// declared ones. Gives the domain separator when all three agree, and
/// fails with `State` otherwise.
pub fn check_commitments(input: &GuestInput) -> (r: Result<[u8; 32], CoreError>)
    ensures
        match r {
            Ok(domain) => commitments_match(*input) && domain@ == domain_separator_spec(
                input.chain_id,
                input.venue_id@,
                input.market_id@,
            ),
            Err(e) => e is State && !commitments_match(*input),
        },
{
    let expected_domain = domain_separator(input.chain_id, &input.venue_id, &input.market_id);
    if !same_bytes(expected_domain.as_slice(), input.public.domain_separator.as_slice()) {
        return Err(CoreError::State("domain separator mismatch"));
    }
    let expected_rules = rules_hash(&input.rules);
    if !same_bytes(expected_rules.as_slice(), input.public.rules_hash.as_slice()) {
        return Err(CoreError::State("rules hash mismatch"));
    }
    let expected_batch = digest_of_messages(
        &expected_domain,
        input.public.batch_seq,
        input.messages.as_slice(),
    );
    if !same_bytes(expected_batch.as_slice(), input.public.batch_digest.as_slice()) {
        return Err(CoreError::State("batch digest mismatch"));
    }
    Ok(expected_domain)
}

/// The root of the output tree over the trades.
pub fn trades_root(trades: &Vec<TradeRecord>) -> (root: [u8; 32])
    ensures
        root@ == output_root(trade_leaves(trades@)),
{
    let mut leaves: Vec<[u8; 32]> = Vec::new();
    let mut i: usize = 0;
    while i < trades.len()
        invariant
            i <= trades@.len(),
            leaves@.len() == i,
            forall|j: int|
                0 <= j < i ==> (#[trigger] leaves@[j])@ == keccak_digest(trades@[j].encoded()),
        decreases trades@.len() - i,
    {
        let bytes = trades[i].encode();
        leaves.push(keccak256(bytes.as_slice()));
        i += 1;
    }
    proof {
        assert(hashes(leaves@) =~= trade_leaves(trades@));
    }
    merkle_root(leaves.as_slice())
}

/// The root of the output tree over the fee totals.
pub fn fees_root(totals: &Vec<FeeTotal>) -> (root: [u8; 32])
    ensures
        root@ == output_root(fee_leaves(totals@)),
{
    let mut leaves: Vec<[u8; 32]> = Vec::new();
    let mut i: usize = 0;
    while i < totals.len()
        invariant
            i <= totals@.len(),
            leaves@.len() == i,
            forall|j: int|
                0 <= j < i ==> (#[trigger] leaves@[j])@ == keccak_digest(totals@[j].encoded()),
        decreases totals@.len() - i,
    {
        let bytes = totals[i].encode();
        leaves.push(keccak256(bytes.as_slice()));
        i += 1;
    }
    proof {
        assert(hashes(leaves@) =~= fee_leaves(totals@));
    }
    merkle_root(leaves.as_slice())
}

/// The digest of the touched keys: the hash of the keys one after another.
pub fn touched_digest(touched_keys: &Vec<[u8; 32]>) -> (digest: [u8; 32])
    ensures
        digest@ == keccak_digest(joined(touched_keys@)),
{
    let mut concat: Vec<u8> = Vec::new();
    let mut i: usize = 0;
    proof {
        assert(touched_keys@.take(0) =~= Seq::<[u8; 32]>::empty());
    }
    while i < touched_keys.len()
        invariant
            i <= touched_keys@.len(),
            concat@ == joined(touched_keys@.take(i as int)),
        decreases touched_keys@.len() - i,
    {
        append(&mut concat, touched_keys[i].as_slice());
        proof {
            let next = touched_keys@.take(i + 1);
            assert(next.drop_last() =~= touched_keys@.take(i as int));
            assert(next.last() == touched_keys@[i as int]);
        }
        i += 1;
    }
    proof {
        assert(touched_keys@.take(touched_keys@.len() as int) =~= touched_keys@);
    }
    keccak256(concat.as_slice())
}

/// Puts together what a finished batch commits to.
pub fn commit_outputs(
    input: &GuestInput,
    new_root: [u8; 32],
    output: &BatchOutput,
    touched_keys: &Vec<[u8; 32]>,
) -> (c: BatchCommitment)
    ensures
        commits_to(c, *input, new_root, output.trades@, output.fee_totals@, touched_keys@),
{
    let public = PublicInputs {
        prev_root: input.public.prev_root,
        new_root,
        batch_digest: input.public.batch_digest,
        rules_hash: input.public.rules_hash,
        domain_separator: input.public.domain_separator,
        batch_seq: input.public.batch_seq,
        batch_timestamp: input.public.batch_timestamp,
        da_commitment: input.public.da_commitment,
        trades_root: trades_root(&output.trades),
        fees_root: fees_root(&output.fee_totals),
    };
    BatchCommitment { public, touched_digest: touched_digest(touched_keys) }
}

/// The replay of a batch from proofs: the messages are carried out step
/// by step at `root`, every access answered by the next of `pending`.
/// Where the replay ends, with the root reached, the proofs left over
/// and the keys touched, and the fee totals and trades, or nothing when
/// a step failed.
pub open spec fn replay_spec(
    root: Seq<u8>,
    pending: Seq<Proof>,
    market: [u8; 32],
    rules: Rules,
    domain_sep: [u8; 32],
    messages: Seq<SignedMessage>,
) -> (ProofModel, Result<Tally, Cause>) {
    batch_run::<ProofState>(
        ProofModel { root, pending, touched: Seq::empty() },
        market,
        rules,
        domain_sep,
        messages,
    )
}

/// Whether a run of the batch of `input` that ended at `run.0` with the
/// fee totals and trades `run.1` succeeds as a whole: the declared
/// commitments match, no step failed, and no proof is left over.
pub open spec fn run_succeeds(input: GuestInput, run: (ProofModel, Result<Tally, Cause>)) -> bool {
    commitments_match(input) && run.1 is Ok && run.0.pending.len() == 0
}

/// Whether `c` is what a run of the batch of `input` commits to that
/// ended at `done` with the fee totals and trades of `tally`: the new
/// root is the root reached, and the rest is as `commits_to` says.
pub open spec fn run_commits(
    c: BatchCommitment,
    input: GuestInput,
    done: ProofModel,
    tally: Tally,
) -> bool {
    c.public.new_root@ == done.root && commits_to(
        c,
        input,
        c.public.new_root,
        tally.trades,
        tally.totals,
        done.touched,
    )
}

/// Runs a batch against a state that stands at the declared previous
/// root.
///
/// The declared commitments are checked first: a mismatch fails with
/// `State` before the state is touched. Then the messages are applied,
/// every access answered by the next proof; a proof left over at the end
/// fails with `State`. The run succeeds exactly when the commitments
/// match, no step of the batch fails and no proof is left over; the
/// commitment is then the one of the root reached, the trades, the fee
/// totals and the keys touched. A step that fails gives an error of its
/// kind, and the state is left where the step left it.
pub fn run_against(input: &GuestInput, state: &mut ProofState) -> (r: Result<
    BatchCommitment,
    CoreError,
>)
    ensures
        ({
            let run = batch_run::<ProofState>(
                old(state).model(),
                input.market_id,
                input.rules,
                input.public.domain_separator,
                input.messages@,
            );
            &&& commitments_match(*input) ==> final(state).model() == run.0
            &&& r is Ok <==> run_succeeds(*input, run)
            &&& r is Ok ==> run_commits(r->Ok_0, *input, run.0, run.1->Ok_0)
            &&& r is Err && run.1 is Ok ==> r->Err_0 is State
            &&& r is Err && commitments_match(*input) && run.1 is Err ==> has_cause(
                r->Err_0,
                run.1->Err_0,
            )
        }),
        final(state).coherent() ==> old(state).coherent(),
        !commitments_match(*input) ==> r is Err && r->Err_0 is State && *final(state) == *old(
            state,
        ),
        r is Ok ==> exists|trades: Seq<TradeRecord>, totals: Seq<FeeTotal>|
            ran_to(r->Ok_0, *input, old(state).contents(), *final(state), trades, totals),
        commitments_match(*input) && final(state).coherent() ==> (r is Ok <==> batch_spec(
            old(state).contents(),
            input.market_id,
            input.rules,
            input.public.domain_separator,
            input.messages@,
        ) is Some && final(state).pending().len() == 0),
{
    let domain = check_commitments(input)?;
    proof {
        assert(domain =~= input.public.domain_separator);
    }
    let output = apply_batch(
        state,
        input.market_id,
        &input.rules,
        domain,
        input.messages.as_slice(),
    )?;
    if state.remaining_proofs() != 0 {
        return Err(CoreError::State("unused proofs"));
    }
    let c = commit_outputs(input, state.root, &output, &state.touched_keys);
    let r = Ok(c);
    proof {
        assert(c.public.new_root == state.root);
        assert(ran_to(
            r->Ok_0,
            *input,
            old(state).contents(),
            *state,
            output.trades@,
            output.fee_totals@,
        ));
    }
    r
}

/// Runs a batch against its proofs: `run_against` on a `ProofState` at
/// the declared previous root that will use `proofs` in their order. It
/// succeeds exactly when the replay of the batch from the proofs
/// succeeds as a whole, and the commitment is then the one of the
/// replay. On success it is also the commitment of a run, from contents
/// that the previous root commits to, that `ran_to` describes.
pub fn run_batch(input: &GuestInput, proofs: Vec<Proof>) -> (r: Result<
    BatchCommitment,
    CoreError,
>)
    ensures
        ({
            let run = replay_spec(
                input.public.prev_root@,
                proofs@,
                input.market_id,
                input.rules,
                input.public.domain_separator,
                input.messages@,
            );
            &&& r is Ok <==> run_succeeds(*input, run)
            &&& r is Ok ==> run_commits(r->Ok_0, *input, run.0, run.1->Ok_0)
            &&& r is Err && run.1 is Ok ==> r->Err_0 is State
            &&& r is Err && commitments_match(*input) && run.1 is Err ==> has_cause(
                r->Err_0,
                run.1->Err_0,
            )
        }),
        !commitments_match(*input) ==> r is Err && r->Err_0 is State,
        r is Ok ==> exists|state: ProofState, trades: Seq<TradeRecord>, totals: Seq<FeeTotal>|
            ran_to(
                r->Ok_0,
                *input,
                committed_contents(input.public.prev_root@),
                state,
                trades,
                totals,
            ),
{
    let mut state = ProofState::new(input.public.prev_root, proofs);
    let r = run_against(input, &mut state);
    proof {
        if r is Ok {
            let w = choose|trades: Seq<TradeRecord>, totals: Seq<FeeTotal>|
                ran_to(
                    r->Ok_0,
                    *input,
                    committed_contents(input.public.prev_root@),
                    state,
                    trades,
                    totals,
                );
            assert(ran_to(
                r->Ok_0,
                *input,
                committed_contents(input.public.prev_root@),
                state,
                w.0,
                w.1,
            ));
        }
    }
    r
}

/// Whether `out` is what the batch of `bundle` commits to on some run:
/// the bytes of the public inputs and the digest of the touched keys of
/// a commitment that `ran_to` describes.
pub open spec fn encoded_run(out: (Vec<u8>, [u8; 32]), bundle: GuestBundle) -> bool {
    exists|c: BatchCommitment, state: ProofState, trades: Seq<TradeRecord>, totals: Seq<FeeTotal>|
        #![trigger ran_to(c, bundle.input, committed_contents(bundle.input.public.prev_root@), state, trades, totals)]
        ran_to(
            c,
            bundle.input,
            committed_contents(bundle.input.public.prev_root@),
            state,
            trades,
            totals,
        ) && out.0@ == c.public.encoded() && out.1 == c.touched_digest
}

/// Whether `r` is what the run of `bundle` gives: it succeeds exactly
/// when the replay of the bundle's batch from its proofs succeeds as a
/// whole, and it is then the bytes of the public inputs and the digest
/// of the touched keys of what the replay commits to.
pub open spec fn bundle_outcome(r: Result<(Vec<u8>, [u8; 32]), CoreError>, bundle: GuestBundle) -> bool {
    let run = replay_spec(
        bundle.input.public.prev_root@,
        bundle.proofs@,
        bundle.input.market_id,
        bundle.input.rules,
        bundle.input.public.domain_separator,
        bundle.input.messages@,
    );
    &&& r is Ok <==> run_succeeds(bundle.input, run)
    &&& r is Ok ==> exists|c: BatchCommitment| #[trigger]
        run_commits(c, bundle.input, run.0, run.1->Ok_0) && r->Ok_0.0@ == c.public.encoded()
            && r->Ok_0.1 == c.touched_digest
    &&& r is Err && run.1 is Ok ==> r->Err_0 is State
    &&& r is Err && commitments_match(bundle.input) && run.1 is Err ==> has_cause(
        r->Err_0,
        run.1->Err_0,
    )
}

/// Runs the batch that `input_bytes` encodes and gives the bytes of the
/// public inputs and the digest of the touched keys.
///
/// Fails with `Decode` when the bytes are no bundle or bytes follow the
/// bundle, and with `State` when the declared commitments do not match;
/// otherwise as `run_batch` does. On success the bytes are the encoding
/// of a bundle, and the result is what that bundle commits to.
pub fn run_encoded_batch(input_bytes: &[u8]) -> (r: Result<(Vec<u8>, [u8; 32]), CoreError>)
    ensures
        GuestBundle::span(input_bytes@) != Some(input_bytes@.len()) ==> r is Err && r->Err_0
            is Decode,
        GuestBundle::span(input_bytes@) == Some(input_bytes@.len()) ==> exists|bundle: GuestBundle|
            bundle.encoded() == input_bytes@ && #[trigger] bundle_outcome(r, bundle),
        r is Ok ==> exists|bundle: GuestBundle|
            #![trigger encoded_run(r->Ok_0, bundle)]
            bundle.encoded() == input_bytes@ && commitments_match(bundle.input) && encoded_run(
                r->Ok_0,
                bundle,
            ),
{
    let mut reader = Reader::new(input_bytes);
    let bundle = GuestBundle::decode(&mut reader)?;
    proof {
        assert((bundle.encoded() + reader.rest()).len() == bundle.encoded().len()
            + reader.rest().len());
    }
    reader.expect_finished()?;
    proof {
        assert(reader.rest() =~= Seq::<u8>::empty());
        assert(bundle.encoded() + reader.rest() =~= bundle.encoded());
    }
    let ghost given = bundle;
    let c = match run_batch(&bundle.input, bundle.proofs) {
        Ok(c) => c,
        Err(e) => {
            let failed = Err(e);
            proof {
                assert(bundle_outcome(failed, given));
            }
            return failed;
        },
    };
    let bytes = c.public.encode();
    let r = Ok((bytes, c.touched_digest));
    proof {
        let run = replay_spec(
            given.input.public.prev_root@,
            given.proofs@,
            given.input.market_id,
            given.input.rules,
            given.input.public.domain_separator,
            given.input.messages@,
        );
        assert(run_commits(c, given.input, run.0, run.1->Ok_0));
        assert(bundle_outcome(r, given));
        let before = committed_contents(given.input.public.prev_root@);
        let witness = choose|state: ProofState, trades: Seq<TradeRecord>, totals: Seq<FeeTotal>|
            ran_to(c, given.input, before, state, trades, totals);
        assert(ran_to(c, given.input, before, witness.0, witness.1, witness.2));
        assert(encoded_run(r->Ok_0, given));
    }
    r
}

} // verus!
