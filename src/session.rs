//! The session context: configuration, active subset, board and ground
//! truth, and the operations that change them.

use vstd::prelude::*;
use crate::dispatch::{all_ok, batch_of, collect_batch, selector_targets, step_targets, SelectorError};
use crate::plaintexts::{plaintexts_match, Plaintext};
use crate::selection::{
    candidate_prefix, candidates, check_config, config_error, get_selected, packed, unpacked,
    valid_config, valid_selection, ConfigError, lemma_candidates_valid, lemma_unpack_packed,
};

verus! {

/// What a session holds, as plain mathematical values.
pub struct SessionState<M> {
    /// The session authority's public signing key.
    pub manager_pk: Seq<u8>,
    /// Each participant's public signing key; a participant's identity is
    /// its position in this list.
    pub trustee_pks: Seq<Seq<u8>>,
    pub threshold: nat,
    /// The active subset: participant positions, counted from 1.
    pub selected: Seq<usize>,
    /// Every message posted so far, in posting order.
    pub board: Seq<M>,
    /// The plaintexts the ballots were cast from; empty until ballots are cast.
    pub plaintexts: Seq<Plaintext>,
    /// Where the messages of the most recent operation start on the board.
    pub last_start: nat,
}

impl<M> SessionState<M> {
    pub open spec fn n(self) -> nat {
        self.trustee_pks.len()
    }

    /// The messages that the most recent operation posted.
    pub open spec fn last_messages(self) -> Seq<M> {
        self.board.subrange(self.last_start as int, self.board.len() as int)
    }

    pub open spec fn wf(self) -> bool {
        &&& valid_config(self.n() as int, self.threshold as int)
        &&& valid_selection(self.selected, self.n() as int, self.threshold as int)
        &&& self.board.len() >= 1
        &&& self.last_start <= self.board.len()
    }
}

/// A freshly bootstrapped session: the bootstrap message alone on the
/// board, no ground truth yet.
pub open spec fn bootstrapped<M>(
    manager_pk: Seq<u8>,
    trustee_pks: Seq<Seq<u8>>,
    threshold: nat,
    bootstrap: M,
) -> SessionState<M> {
    SessionState {
        manager_pk,
        trustee_pks,
        threshold,
        selected: candidate_prefix(threshold),
        board: seq![bootstrap],
        plaintexts: Seq::empty(),
        last_start: 0,
    }
}

/// The session after a step whose participants produced `batch`.
pub open spec fn after_step<M>(s: SessionState<M>, batch: Seq<M>) -> SessionState<M> {
    SessionState { board: s.board + batch, last_start: s.board.len(), ..s }
}

/// The session after a dispatch with the given per-participant results: the
/// whole batch is posted when every participant succeeded, nothing otherwise.
pub open spec fn after_dispatch<M, E>(
    s: SessionState<M>,
    results: Seq<Result<Vec<M>, E>>,
) -> SessionState<M> {
    if all_ok(results) {
        after_step(s, batch_of(results))
    } else {
        s
    }
}

/// The session after a sequence of dispatches.
pub open spec fn after_dispatches<M, E>(
    s: SessionState<M>,
    runs: Seq<Seq<Result<Vec<M>, E>>>,
) -> SessionState<M>
    decreases runs.len(),
{
    if runs.len() == 0 {
        s
    } else {
        after_dispatch(after_dispatches(s, runs.drop_last()), runs.last())
    }
}

/// The session after casting the ballots of `plaintexts` in `message`: a
/// cast takes effect only while no ground truth is recorded.
pub open spec fn after_ballots<M>(
    s: SessionState<M>,
    plaintexts: Seq<Plaintext>,
    message: M,
) -> SessionState<M> {
    if s.plaintexts.len() == 0 {
        SessionState {
            board: s.board.push(message),
            plaintexts,
            last_start: s.board.len(),
            ..s
        }
    } else {
        s
    }
}


/// Once ballots were cast, casting again changes nothing: the ground truth
/// and the board stay as the first cast left them, whatever the second cast
/// carries. A first cast of no ballot records no ground truth, so it does
/// not count as the cast.
pub proof fn lemma_ballots_idempotent<M>(
    s: SessionState<M>,
    first: Seq<Plaintext>,
    first_message: M,
    second: Seq<Plaintext>,
    second_message: M,
)
    requires
        s.wf(),
        s.plaintexts.len() > 0 || first.len() > 0,
    ensures
        ({
            let once = after_ballots(s, first, first_message);
            let twice = after_ballots(once, second, second_message);
            &&& twice.plaintexts == once.plaintexts
            &&& twice.board == once.board
            &&& s.plaintexts.len() == 0 ==> once.plaintexts == first
            &&& s.plaintexts.len() == 0 ==> once.board == s.board.push(first_message)
        }),
{
}

/// A bootstrapped session holds exactly one message, which is also its
/// last message, one key per participant, no ground truth, and an active
/// subset of `threshold` distinct valid positions; packed with any sentinel
/// that is not one of those positions, the subset is the prefix before the
/// first sentinel.
pub proof fn lemma_bootstrap_structure<M>(
    manager_pk: Seq<u8>,
    trustee_pks: Seq<Seq<u8>>,
    threshold: nat,
    bootstrap: M,
    null_trustee: usize,
)
    requires
        valid_config(trustee_pks.len() as int, threshold as int),
        !(1 <= null_trustee <= threshold),
    ensures
        ({
            let s = bootstrapped(manager_pk, trustee_pks, threshold, bootstrap);
            &&& s.board.len() == 1
            &&& s.last_messages() == s.board
            &&& s.n() == trustee_pks.len()
            &&& valid_selection(s.selected, trustee_pks.len() as int, threshold as int)
            &&& s.plaintexts.len() == 0
            &&& s.wf()
            &&& unpacked(packed(s.selected, null_trustee), null_trustee) == s.selected
        }),
{
    let s = bootstrapped(manager_pk, trustee_pks, threshold, bootstrap);
    lemma_candidates_valid(trustee_pks.len() as int, threshold as int);
    lemma_unpack_packed(candidate_prefix(threshold), null_trustee);
    assert(s.last_messages() =~= s.board);
}

/// One dispatch grows the board by exactly the messages of its batch when
/// every participant succeeded, and leaves it as it was otherwise; a
/// well-formed session stays well-formed.
pub proof fn lemma_dispatch_growth<M, E>(s: SessionState<M>, results: Seq<Result<Vec<M>, E>>)
    requires
        s.wf(),
    ensures
        ({
            let t = after_dispatch(s, results);
            &&& t.wf()
            &&& s.board.is_prefix_of(t.board)
            &&& all_ok(results) ==> t.board.len() == s.board.len() + batch_of(results).len()
            &&& !all_ok(results) ==> t.board == s.board
        }),
{
    let t = after_dispatch(s, results);
    assert(t.board.subrange(0, s.board.len() as int) =~= s.board);
}

/// Across any sequence of dispatches the board only grows: what was posted
/// before stays, in place, and the session stays well-formed.
pub proof fn lemma_dispatches_append_only<M, E>(
    s: SessionState<M>,
    runs: Seq<Seq<Result<Vec<M>, E>>>,
)
    requires
        s.wf(),
    ensures
        after_dispatches(s, runs).wf(),
        s.board.is_prefix_of(after_dispatches(s, runs).board),
        s.board.len() <= after_dispatches(s, runs).board.len(),
    decreases runs.len(),
{
    if runs.len() > 0 {
        let mid = after_dispatches(s, runs.drop_last());
        lemma_dispatches_append_only(s, runs.drop_last());
        lemma_dispatch_growth(mid, runs.last());
        let t = after_dispatch(mid, runs.last());
        assert(t.board.subrange(0, s.board.len() as int) =~= mid.board.subrange(
            0,
            s.board.len() as int,
        ));
    }
}

/// What a request for ballots leads to.
#[derive(Debug, Clone, Copy, PartialEq, Eq, Structural)]
pub enum BallotDecision {
    /// No group public key exists yet: nothing can be encrypted.
    NoKey,
    /// Ballots were cast already in this session.
    AlreadyAdded,
    /// Ballots are to be generated and cast.
    Cast,
}

/// The decision for a session that has recorded `recorded` ground-truth
/// plaintexts.
pub open spec fn ballot_decision(recorded: nat, key_available: bool) -> BallotDecision {
    if !key_available {
        BallotDecision::NoKey
    } else if recorded > 0 {
        BallotDecision::AlreadyAdded
    } else {
        BallotDecision::Cast
    }
}

/// The session context of one simulated decryption round.
pub struct Session<M> {
    manager_pk: Vec<u8>,
    trustee_pks: Vec<Vec<u8>>,
    threshold: usize,
    selected: Vec<usize>,
    board: Vec<M>,
    plaintexts: Vec<Plaintext>,
    last_start: usize,
}

impl<M> View for Session<M> {
    type V = SessionState<M>;

    closed spec fn view(&self) -> SessionState<M> {
        SessionState {
            manager_pk: self.manager_pk@,
            trustee_pks: self.trustee_pks@.map_values(|k: Vec<u8>| k@),
            threshold: self.threshold as nat,
            selected: self.selected@,
            board: self.board@,
            plaintexts: self.plaintexts@,
            last_start: self.last_start as nat,
        }
    }
}

impl<M> Session<M> {
    /// Bootstraps a session for the participants with the given public keys:
    /// the active subset is the first `threshold` positions and the board
    /// holds the bootstrap message alone. Fails with `BadParticipantCount`
    /// unless `1 <= participants <= MAX_TRUSTEES`, with `BadThreshold` unless
    /// `1 <= threshold <= participants`, and with `TooFewCandidates` when
    /// `threshold` exceeds the `CANDIDATE_COUNT` candidate positions.
    pub fn new(manager_pk: Vec<u8>, trustee_pks: Vec<Vec<u8>>, threshold: usize, bootstrap: M) -> (r:
        Result<Session<M>, ConfigError>)
        ensures
            r is Ok <==> valid_config(trustee_pks@.len() as int, threshold as int),
            r matches Ok(s) ==> s@ == bootstrapped(
                manager_pk@,
                trustee_pks@.map_values(|k: Vec<u8>| k@),
                threshold as nat,
                bootstrap,
            ) && s@.wf(),
            r matches Err(e) ==> e == config_error(trustee_pks@.len() as int, threshold as int),
    {
        match check_config(trustee_pks.len(), threshold) {
            Err(e) => Err(e),
            Ok(()) => {
                let selected = candidates(threshold);
                let mut board: Vec<M> = Vec::new();
                board.push(bootstrap);
                let s = Session {
                    manager_pk,
                    trustee_pks,
                    threshold,
                    selected,
                    board,
                    plaintexts: Vec::new(),
                    last_start: 0,
                };
                proof {
                    lemma_candidates_valid(s@.n() as int, threshold as int);
                    assert(s@.board =~= seq![bootstrap]);
                    assert(s@.plaintexts =~= Seq::<Plaintext>::empty());
                }
                Ok(s)
            },
        }
    }

    /// Replaces the whole session by a freshly bootstrapped one. On invalid
    /// parameters, with the errors of `new` (a threshold above
    /// `CANDIDATE_COUNT` included), the session is left as it was.
    pub fn reset(&mut self, manager_pk: Vec<u8>, trustee_pks: Vec<Vec<u8>>, threshold: usize, bootstrap: M) -> (r:
        Result<(), ConfigError>)
        ensures
            r is Ok <==> valid_config(trustee_pks@.len() as int, threshold as int),
            r is Ok ==> final(self)@ == bootstrapped(
                manager_pk@,
                trustee_pks@.map_values(|k: Vec<u8>| k@),
                threshold as nat,
                bootstrap,
            ),
            r is Err ==> final(self)@ == old(self)@,
            r matches Err(e) ==> e == config_error(trustee_pks@.len() as int, threshold as int),
    {
        match Session::new(manager_pk, trustee_pks, threshold, bootstrap) {
            Ok(s) => {
                *self = s;
                Ok(())
            },
            Err(e) => Err(e),
        }
    }

    pub fn threshold(&self) -> (r: usize)
        ensures
            r == self@.threshold,
    {
        self.threshold
    }

    /// Number of participants.
    pub fn participants(&self) -> (r: usize)
        ensures
            r == self@.n(),
    {
        self.trustee_pks.len()
    }

    pub fn manager_pk(&self) -> (r: &Vec<u8>)
        ensures
            r@ == self@.manager_pk,
    {
        &self.manager_pk
    }

    pub fn trustee_pks(&self) -> (r: &Vec<Vec<u8>>)
        ensures
            r@.map_values(|k: Vec<u8>| k@) == self@.trustee_pks,
    {
        &self.trustee_pks
    }

    /// The active subset, as participant positions counted from 1.
    pub fn selected(&self) -> (r: &Vec<usize>)
        ensures
            r@ == self@.selected,
    {
        &self.selected
    }

    /// The active subset in its fixed-capacity form, as ballot batches carry
    /// it, with `null_trustee` in the unused slots.
    pub fn selected_slots(&self, null_trustee: usize) -> (r: [usize; 12])
        requires
            self@.wf(),
        ensures
            r@ == packed(self@.selected, null_trustee),
    {
        get_selected(self.selected.as_slice(), null_trustee)
    }

    /// Every message posted so far.
    pub fn board(&self) -> (r: &Vec<M>)
        ensures
            r@ == self@.board,
    {
        &self.board
    }

    /// The plaintexts the ballots were cast from.
    pub fn plaintexts(&self) -> (r: &Vec<Plaintext>)
        ensures
            r@ == self@.plaintexts,
    {
        &self.plaintexts
    }

    /// Where the messages of the most recent operation start on the board:
    /// they run from there to the end.
    pub fn last_start(&self) -> (r: usize)
        ensures
            r == self@.last_start,
    {
        self.last_start
    }

    /// The messages that the most recent operation posted, in posting order.
    pub fn last_messages(&self) -> (r: &[M])
        requires
            self@.wf(),
        ensures
            r@ == self@.last_messages(),
    {
        vstd::slice::slice_subrange(self.board.as_slice(), self.last_start, self.board.len())
    }

    /// The participants that a step selector names, in stepping order.
    pub fn step_targets(&self, active: &str) -> (r: Result<Vec<usize>, SelectorError>)
        ensures
            match (r, selector_targets(active@, self@.n())) {
                (Ok(v), Ok(t)) => v@ == t,
                (Err(e), Err(f)) => e == f,
                _ => false,
            },
    {
        step_targets(active, self.trustee_pks.len())
    }

    /// Posts the outbound messages of one dispatch, given each stepped
    /// participant's result in stepping order. When all succeeded their
    /// messages are appended in that order and become the last messages;
    /// the number appended is returned. When one failed nothing is posted and
    /// the first failure is returned with its place in the dispatch.
    pub fn commit_step<E>(&mut self, results: Vec<Result<Vec<M>, E>>) -> (r: Result<usize, (usize, E)>)
        requires
            old(self)@.wf(),
        ensures
            final(self)@ == after_dispatch(old(self)@, results@),
            final(self)@.wf(),
            r is Ok <==> all_ok(results@),
            r matches Ok(k) ==> k == batch_of(results@).len(),
            r matches Err((i, e)) ==> {
                &&& 0 <= i < results@.len()
                &&& all_ok(results@.subrange(0, i as int))
                &&& results@[i as int] == Err::<Vec<M>, E>(e)
            },
    {
        match collect_batch(results) {
            Ok(batch) => {
                let start = self.board.len();
                let k = batch.len();
                let mut batch = batch;
                self.board.append(&mut batch);
                self.last_start = start;
                Ok(k)
            },
            Err(e) => Err(e),
        }
    }

    /// What a request for ballots leads to: nothing without a group key,
    /// nothing once ballots were cast, a cast otherwise.
    pub fn ballot_decision(&self, key_available: bool) -> (r: BallotDecision)
        ensures
            r == ballot_decision(self@.plaintexts.len(), key_available),
    {
        if !key_available {
            BallotDecision::NoKey
        } else if self.plaintexts.len() > 0 {
            BallotDecision::AlreadyAdded
        } else {
            BallotDecision::Cast
        }
    }

    /// Casts the ballots encrypted from `plaintexts`, posted as `message`.
    /// The cast takes effect only while no ground truth is recorded: it then
    /// records the plaintexts as ground truth and appends the message.
    /// Returns whether the cast took effect.
    pub fn cast_ballots(&mut self, plaintexts: Vec<Plaintext>, message: M) -> (r: bool)
        requires
            old(self)@.wf(),
        ensures
            final(self)@ == after_ballots(old(self)@, plaintexts@, message),
            final(self)@.wf(),
            r == (old(self)@.plaintexts.len() == 0),
    {
        if self.plaintexts.len() == 0 {
            let start = self.board.len();
            self.board.push(message);
            self.plaintexts = plaintexts;
            self.last_start = start;
            true
        } else {
            false
        }
    }

    /// The end-of-round check: `None` while participant 0 has recovered no
    /// plaintexts, else whether the recovered ones equal the ground truth as
    /// sets.
    pub fn check_completion(&self, recovered: Option<Vec<Plaintext>>) -> (r: Option<bool>)
        ensures
            recovered is None <==> r is None,
            recovered matches Some(p) ==> r == Some(p@.to_set() == self@.plaintexts.to_set()),
    {
        match recovered {
            None => None,
            Some(p) => Some(plaintexts_match(&p, &self.plaintexts)),
        }
    }
}

} // verus!
