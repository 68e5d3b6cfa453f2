//! Which participants a step advances, and how their outbound messages are
//! gathered into one batch.

use vstd::prelude::*;

verus! {

/// Why a step selector was rejected.
#[derive(Debug, Clone, Copy, PartialEq, Eq, Structural)]
pub enum SelectorError {
    /// The selector is neither empty, `all`, nor a decimal number.
    Unparsable,
}

pub open spec fn is_digit(c: char) -> bool {
    '0' <= c <= '9'
}

pub open spec fn all_digits(s: Seq<char>) -> bool {
    forall|i: int| 0 <= i < s.len() ==> is_digit(#[trigger] s[i])
}

pub open spec fn digit_value(c: char) -> nat {
    (c as u32 - '0' as u32) as nat
}

/// The number that a string of decimal digits denotes.
pub open spec fn decimal_value(s: Seq<char>) -> nat
    decreases s.len(),
{
    if s.len() == 0 {
        0
    } else {
        decimal_value(s.drop_last()) * 10 + digit_value(s.last())
    }
}

/// The selector that stands for every participant: empty, or `all`.
pub open spec fn selects_all(s: Seq<char>) -> bool {
    s.len() == 0 || s == seq!['a', 'l', 'l']
}

/// Participants `0..n`, in ascending order.
pub open spec fn all_indices(n: nat) -> Seq<usize> {
    Seq::new(n, |i: int| i as usize)
}

/// The participants that a selector names in a session of `n`: all of them,
/// or the one whose index it gives, or none when that index is out of range.
pub open spec fn selector_targets(s: Seq<char>, n: nat) -> Result<Seq<usize>, SelectorError> {
    if selects_all(s) {
        Ok(all_indices(n))
    } else if all_digits(s) {
        if decimal_value(s) < n {
            Ok(seq![decimal_value(s) as usize])
        } else {
            Ok(Seq::empty())
        }
    } else {
        Err(SelectorError::Unparsable)
    }
}

fn is_all_word(s: &str) -> (r: bool)
    ensures
        r == (s@ == seq!['a', 'l', 'l']),
{
    if s.unicode_len() != 3 {
        return false;
    }
    let r = s.get_char(0) == 'a' && s.get_char(1) == 'l' && s.get_char(2) == 'l';
    if r {
        assert(s@ =~= seq!['a', 'l', 'l']);
    }
    r
}

proof fn lemma_decimal_grows(s: Seq<char>, bound: nat)
    requires
        s.len() > 0,
        decimal_value(s.drop_last()) >= bound,
    ensures
        decimal_value(s) >= bound,
{
    let v = decimal_value(s.drop_last());
    assert(v * 10 >= v) by (nonlinear_arith);
}

/// Resolves a step selector into the participant indices to advance, in the
/// order in which they are stepped. An index past the last participant
/// selects nobody: the step then appends nothing.
pub fn step_targets(active: &str, n: usize) -> (r: Result<Vec<usize>, SelectorError>)
    ensures
        match (r, selector_targets(active@, n as nat)) {
            (Ok(v), Ok(t)) => v@ == t,
            (Err(e), Err(f)) => e == f,
            _ => false,
        },
{
    let len = active.unicode_len();
    if len == 0 || is_all_word(active) {
        let mut v: Vec<usize> = Vec::new();
        let mut i: usize = 0;
        while i < n
            invariant
                i <= n,
                v@ == all_indices(i as nat),
            decreases n - i,
        {
            v.push(i);
            i = i + 1;
            assert(v@ =~= all_indices(i as nat));
        }
        return Ok(v);
    }
    // `acc` holds the value of the digits read so far while it stays below
    // `n`; once the value reaches `n` it can only grow, so the digits that
    // follow are only checked.
    let mut acc: u128 = 0;
    let mut past: bool = n == 0;
    let mut i: usize = 0;
    while i < len
        invariant
            len == active@.len(),
            i <= len,
            !selects_all(active@),
            all_digits(active@.subrange(0, i as int)),
            past ==> decimal_value(active@.subrange(0, i as int)) >= n,
            !past ==> acc == decimal_value(active@.subrange(0, i as int)) && acc < n,
        decreases len - i,
    {
        let c = active.get_char(i);
        if c < '0' || c > '9' {
            assert(active@[i as int] == c);
            assert(!is_digit(active@[i as int]));
            assert(!all_digits(active@));
            assert(!selects_all(active@));
            return Err(SelectorError::Unparsable);
        }
        let ghost pre = active@.subrange(0, i as int);
        let ghost cur = active@.subrange(0, i as int + 1);
        assert(cur.drop_last() =~= pre);
        assert(cur.last() == c);
        let d = (c as u32 - '0' as u32) as u128;
        if !past {
            let next = acc * 10 + d;
            if next >= n as u128 {
                past = true;
            } else {
                acc = next;
            }
        } else {
            proof {
                lemma_decimal_grows(cur, n as nat);
            }
        }
        i = i + 1;
        assert(all_digits(active@.subrange(0, i as int))) by {
            assert forall|k: int| 0 <= k < i implies is_digit(
                #[trigger] active@.subrange(0, i as int)[k],
            ) by {
                if k < i - 1 {
                    assert(active@.subrange(0, i as int)[k] == pre[k]);
                }
            }
        }
    }
    assert(active@.subrange(0, len as int) =~= active@);
    if past {
        Ok(Vec::new())
    } else {
        let mut v: Vec<usize> = Vec::new();
        v.push(acc as usize);
        assert(v@ =~= seq![decimal_value(active@) as usize]);
        Ok(v)
    }
}

/// The messages of a sequence of successful step results, in order.
pub open spec fn batch_of<M, E>(rs: Seq<Result<Vec<M>, E>>) -> Seq<M>
    decreases rs.len(),
{
    if rs.len() == 0 {
        Seq::empty()
    } else {
        batch_of(rs.drop_last()) + match rs.last() {
            Ok(v) => v@,
            Err(_) => Seq::empty(),
        }
    }
}

pub open spec fn all_ok<M, E>(rs: Seq<Result<Vec<M>, E>>) -> bool {
    forall|i: int| 0 <= i < rs.len() ==> #[trigger] rs[i] is Ok
}

/// Gathers the outbound messages of the participants stepped in one
/// dispatch into a single batch, in invocation order. A failing participant
/// aborts the whole dispatch: the result is then the first failure with its
/// position, and no message of the dispatch is to be posted.
pub fn collect_batch<M, E>(results: Vec<Result<Vec<M>, E>>) -> (r: Result<Vec<M>, (usize, E)>)
    ensures
        r is Ok <==> all_ok(results@),
        r matches Ok(b) ==> b@ == batch_of(results@),
        r matches Err((i, e)) ==> {
            &&& 0 <= i < results@.len()
            &&& all_ok(results@.subrange(0, i as int))
            &&& results@[i as int] == Err::<Vec<M>, E>(e)
        },
{
    let ghost orig = results@;
    let n = results.len();
    let mut rest = results;
    let mut batch: Vec<M> = Vec::new();
    let mut i: usize = 0;
    while rest.len() > 0
        invariant
            i <= orig.len(),
            i + rest@.len() == orig.len(),
            orig.len() == n,
            orig == results@,
            rest@ == orig.subrange(i as int, orig.len() as int),
            all_ok(orig.subrange(0, i as int)),
            batch@ == batch_of(orig.subrange(0, i as int)),
        decreases rest@.len(),
    {
        let item = rest.remove(0);
        assert(item == orig[i as int]);
        let ghost next = orig.subrange(0, i as int + 1);
        assert(next.drop_last() =~= orig.subrange(0, i as int));
        match item {
            Ok(mut v) => {
                batch.append(&mut v);
                i = i + 1;
                assert(rest@ =~= orig.subrange(i as int, orig.len() as int));
            },
            Err(e) => {
                assert(!(orig[i as int] is Ok));
                assert(!all_ok(orig));
                return Err((i, e));
            },
        }
    }
    assert(orig.subrange(0, i as int) =~= orig);
    Ok(batch)
}

} // verus!
