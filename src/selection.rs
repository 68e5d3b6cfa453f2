//! Session parameters and the active threshold subset.

use vstd::prelude::*;

verus! {

/// Largest number of participants a session can have: the fixed capacity of
/// the active-subset array.
pub const MAX_TRUSTEES: usize = 12;

/// Number of candidate positions the active subset is drawn from.
pub const CANDIDATE_COUNT: usize = 8;

/// Why a session could not be configured.
#[derive(Debug, Clone, Copy, PartialEq, Eq, Structural)]
pub enum ConfigError {
    /// The participant count is outside `1..=MAX_TRUSTEES`.
    BadParticipantCount,
    /// The threshold is outside `1..=participants`.
    BadThreshold,
    /// The threshold exceeds the number of candidate positions.
    TooFewCandidates,
}

/// The parameters that a session can be built from.
pub open spec fn valid_config(n: int, threshold: int) -> bool {
    &&& 1 <= n <= MAX_TRUSTEES
    &&& 1 <= threshold <= n
    &&& threshold <= CANDIDATE_COUNT
}

/// The error that `check_config` reports for invalid parameters.
pub open spec fn config_error(n: int, threshold: int) -> ConfigError {
    if !(1 <= n <= MAX_TRUSTEES) {
        ConfigError::BadParticipantCount
    } else if !(1 <= threshold <= n) {
        ConfigError::BadThreshold
    } else {
        ConfigError::TooFewCandidates
    }
}

/// The active subset chosen for a threshold: the first `threshold`
/// candidate positions `1, 2, ...`.
pub open spec fn candidate_prefix(threshold: nat) -> Seq<usize> {
    Seq::new(threshold, |i: int| (i + 1) as usize)
}

/// A well-formed active subset for `n` participants and `threshold`:
/// exactly `threshold` distinct positions, each in `1..=n`.
pub open spec fn valid_selection(sel: Seq<usize>, n: int, threshold: int) -> bool {
    &&& sel.len() == threshold
    &&& sel.no_duplicates()
    &&& forall|i: int| 0 <= i < sel.len() ==> 1 <= #[trigger] sel[i] <= n
}

/// The fixed-capacity form of a subset: the subset left-packed, the rest
/// of the slots holding the sentinel `null` that marks an unused slot.
pub open spec fn packed(sel: Seq<usize>, null: usize) -> Seq<usize> {
    Seq::new(
        MAX_TRUSTEES as nat,
        |i: int|
            if i < sel.len() {
                sel[i]
            } else {
                null
            },
    )
}

/// The prefix of a fixed-capacity subset before the first sentinel `null`.
pub open spec fn unpacked(slots: Seq<usize>, null: usize) -> Seq<usize>
    decreases slots.len(),
{
    if slots.len() == 0 || slots[0] == null {
        Seq::empty()
    } else {
        seq![slots[0]].add(unpacked(slots.drop_first(), null))
    }
}

/// Checks the session parameters: `1 <= threshold <= n <= MAX_TRUSTEES`, and
/// no more than `CANDIDATE_COUNT` active positions.
pub fn check_config(n: usize, threshold: usize) -> (r: Result<(), ConfigError>)
    ensures
        r is Ok <==> valid_config(n as int, threshold as int),
        r is Err ==> r == Err::<(), ConfigError>(config_error(n as int, threshold as int)),
{
    if n < 1 || n > MAX_TRUSTEES {
        Err(ConfigError::BadParticipantCount)
    } else if threshold < 1 || threshold > n {
        Err(ConfigError::BadThreshold)
    } else if threshold > CANDIDATE_COUNT {
        Err(ConfigError::TooFewCandidates)
    } else {
        Ok(())
    }
}

/// The active subset for a threshold: positions `1..=threshold`.
pub fn candidates(threshold: usize) -> (r: Vec<usize>)
    requires
        threshold <= CANDIDATE_COUNT,
    ensures
        r@ == candidate_prefix(threshold as nat),
{
    let mut r: Vec<usize> = Vec::new();
    let mut i: usize = 0;
    while i < threshold
        invariant
            i <= threshold <= CANDIDATE_COUNT,
            r@ == candidate_prefix(i as nat),
        decreases threshold - i,
    {
        r.push(i + 1);
        i = i + 1;
        assert(r@ =~= candidate_prefix(i as nat));
    }
    r
}

/// The candidate subset is a well-formed selection whenever the parameters
/// are valid.
pub proof fn lemma_candidates_valid(n: int, threshold: int)
    requires
        valid_config(n, threshold),
    ensures
        valid_selection(candidate_prefix(threshold as nat), n, threshold),
{
    let s = candidate_prefix(threshold as nat);
    assert forall|i: int, j: int| 0 <= i < s.len() && 0 <= j < s.len() && i != j implies s[i]
        != s[j] by {}
}

/// Packs a subset into the fixed-capacity array, padding with the sentinel
/// `null_trustee` that marks an unused slot.
pub fn get_selected(input: &[usize], null_trustee: usize) -> (r: [usize; 12])
    requires
        input@.len() <= MAX_TRUSTEES,
    ensures
        r@ == packed(input@, null_trustee),
{
    let mut r: [usize; 12] = [null_trustee; 12];
    let mut i: usize = 0;
    while i < input.len()
        invariant
            input@.len() <= MAX_TRUSTEES,
            i <= input@.len(),
            r@.len() == MAX_TRUSTEES,
            forall|k: int| 0 <= k < i ==> r@[k] == input@[k],
            forall|k: int| i <= k < MAX_TRUSTEES ==> r@[k] == null_trustee,
        decreases input@.len() - i,
    {
        r[i] = input[i];
        i = i + 1;
    }
    assert(r@ =~= packed(input@, null_trustee));
    r
}

/// Packing a subset whose positions avoid the sentinel keeps exactly that
/// subset as the non-sentinel prefix.
pub proof fn lemma_unpack_packed(sel: Seq<usize>, null: usize)
    requires
        sel.len() <= MAX_TRUSTEES,
        forall|i: int| 0 <= i < sel.len() ==> #[trigger] sel[i] != null,
    ensures
        unpacked(packed(sel, null), null) == sel,
{
    lemma_unpack_suffix(sel, null, 0);
    assert(packed(sel, null).subrange(0, MAX_TRUSTEES as int) =~= packed(sel, null));
    assert(sel.subrange(0, sel.len() as int) =~= sel);
}

proof fn lemma_unpack_suffix(sel: Seq<usize>, null: usize, k: int)
    requires
        sel.len() <= MAX_TRUSTEES,
        forall|i: int| 0 <= i < sel.len() ==> #[trigger] sel[i] != null,
        0 <= k <= MAX_TRUSTEES,
    ensures
        unpacked(packed(sel, null).subrange(k, MAX_TRUSTEES as int), null) == if k < sel.len() {
            sel.subrange(k, sel.len() as int)
        } else {
            Seq::<usize>::empty()
        },
    decreases MAX_TRUSTEES - k,
{
    let rest = packed(sel, null).subrange(k, MAX_TRUSTEES as int);
    if k < MAX_TRUSTEES {
        lemma_unpack_suffix(sel, null, k + 1);
        assert(rest.drop_first() =~= packed(sel, null).subrange(k + 1, MAX_TRUSTEES as int));
        if k < sel.len() {
            assert(sel.subrange(k, sel.len() as int) =~= seq![sel[k]].add(
                if k + 1 < sel.len() {
                    sel.subrange(k + 1, sel.len() as int)
                } else {
                    Seq::<usize>::empty()
                },
            ));
        }
    }
}

} // verus!
