//! Client-side prediction bookkeeping: which locally issued inputs the
//! server has not yet acknowledged and so are replayed on top of its latest
//! state.

use vstd::prelude::*;

verus! {

/// Simulation ticks per second.
pub const TICK_RATE: u64 = 64;

/// At most this many pending inputs (one second of ticks) are replayed.
pub const MAX_PENDING: usize = 64;

#[derive(Clone, Copy, Debug, PartialEq, Eq, Structural)]
pub enum SoundEventKind {
    Footstep,
    Gunshot,
    Pickup,
}

/// What a predicted snapshot was built from.
#[derive(Clone, Copy, Debug, PartialEq, Eq, Structural)]
pub struct PredictionDebug {
    pub acked_input_tick: u64,
    pub pending_input_count: usize,
}

/// Positions, in order, among the first `n` pending inputs (given as
/// (controller id, tick)), of those issued by `local` after tick `acked`.
pub open spec fn unacked_local(inputs: Seq<(u64, u64)>, n: int, local: u64, acked: u64) -> Seq<int>
    decreases n,
{
    if n <= 0 {
        Seq::empty()
    } else if inputs[n - 1].0 == local && inputs[n - 1].1 > acked {
        unacked_local(inputs, n - 1, local, acked).push(n - 1)
    } else {
        unacked_local(inputs, n - 1, local, acked)
    }
}

/// The positions replayed: the newest `MAX_PENDING` of the unacknowledged
/// local inputs, oldest first.
pub open spec fn replay_window(inputs: Seq<(u64, u64)>, local: u64, acked: u64) -> Seq<int> {
    let all = unacked_local(inputs, inputs.len() as int, local, acked);
    if all.len() > MAX_PENDING { all.skip(all.len() - MAX_PENDING) } else { all }
}

proof fn lemma_unacked_local(inputs: Seq<(u64, u64)>, n: int, local: u64, acked: u64)
    requires
        0 <= n <= inputs.len(),
    ensures
        unacked_local(inputs, n, local, acked).len() <= n,
        forall|k: int| 0 <= k < unacked_local(inputs, n, local, acked).len() ==> {
            let i = #[trigger] unacked_local(inputs, n, local, acked)[k];
            0 <= i < n && inputs[i].0 == local && inputs[i].1 > acked
        },
        forall|k: int, l: int| 0 <= k < l < unacked_local(inputs, n, local, acked).len() ==>
            unacked_local(inputs, n, local, acked)[k] < unacked_local(inputs, n, local, acked)[l],
        forall|i: int| 0 <= i < n && inputs[i].0 == local && inputs[i].1 > acked ==>
            unacked_local(inputs, n, local, acked).contains(i),
    decreases n,
{
    if n > 0 {
        lemma_unacked_local(inputs, n - 1, local, acked);
        let prev = unacked_local(inputs, n - 1, local, acked);
        assert forall|i: int| 0 <= i < n && inputs[i].0 == local && inputs[i].1 > acked implies
            unacked_local(inputs, n, local, acked).contains(i) by {
            if i < n - 1 {
                assert(prev.contains(i));
                let k = choose|k: int| 0 <= k < prev.len() && prev[k] == i;
                assert(unacked_local(inputs, n, local, acked)[k] == i);
            } else {
                assert(unacked_local(inputs, n, local, acked)[prev.len() as int] == i);
            }
        }
    }
}

/// The replayed inputs are the local controller's unacknowledged ones, in
/// order, at most `MAX_PENDING` of them; when there are more, exactly the
/// newest `MAX_PENDING` are kept, and every input left out is older than
/// every input kept.
pub proof fn lemma_replay_window(inputs: Seq<(u64, u64)>, local: u64, acked: u64)
    ensures
        replay_window(inputs, local, acked).len() <= MAX_PENDING,
        forall|k: int| 0 <= k < replay_window(inputs, local, acked).len() ==> {
            let i = #[trigger] replay_window(inputs, local, acked)[k];
            0 <= i < inputs.len() && inputs[i].0 == local && inputs[i].1 > acked
        },
        forall|k: int, l: int| 0 <= k < l < replay_window(inputs, local, acked).len() ==>
            replay_window(inputs, local, acked)[k] < replay_window(inputs, local, acked)[l],
        forall|i: int| 0 <= i < inputs.len() && inputs[i].0 == local && inputs[i].1 > acked
            && !replay_window(inputs, local, acked).contains(i) ==>
            replay_window(inputs, local, acked).len() == MAX_PENDING
                && i < replay_window(inputs, local, acked)[0],
{
    let n = inputs.len() as int;
    lemma_unacked_local(inputs, n, local, acked);
    let all = unacked_local(inputs, n, local, acked);
    let w = replay_window(inputs, local, acked);
    assert forall|i: int| 0 <= i < inputs.len() && inputs[i].0 == local && inputs[i].1 > acked
        && !w.contains(i) implies w.len() == MAX_PENDING && i < w[0] by {
        assert(all.contains(i));
        let k = choose|k: int| 0 <= k < all.len() && all[k] == i;
        if all.len() > MAX_PENDING {
            let start = all.len() - MAX_PENDING;
            if k >= start {
                assert(w[k - start] == i);
                assert(w.contains(i));
            }
            assert(w[0] == all[start as int]);
            assert(all[k] < all[start as int]);
        } else {
            assert(w[k] == i);
            assert(w.contains(i));
        }
    }
}

/// Which pending inputs (given as (controller id, tick), oldest first) to
/// replay on the server's state: those of controller `local` newer than the
/// acknowledged tick `acked`, at most the newest `MAX_PENDING` of them, as
/// positions in `inputs`, oldest first. An empty result means no prediction.
pub fn inputs_to_replay(inputs: &Vec<(u64, u64)>, local: u64, acked: u64) -> (r: Vec<usize>)
    ensures
        r@.len() == replay_window(inputs@, local, acked).len(),
        forall|k: int| 0 <= k < r@.len() ==> r@[k] as int == #[trigger] replay_window(inputs@, local, acked)[k],
{
    let mut all: Vec<usize> = Vec::new();
    let mut i: usize = 0;
    while i < inputs.len()
        invariant
            i <= inputs@.len(),
            all@.len() == unacked_local(inputs@, i as int, local, acked).len(),
            forall|k: int| 0 <= k < all@.len() ==> all@[k] as int == #[trigger] unacked_local(inputs@, i as int, local, acked)[k],
        decreases inputs@.len() - i,
    {
        let (controller, tick) = inputs[i];
        if controller == local && tick > acked {
            all.push(i);
        }
        i = i + 1;
    }
    let start: usize = if all.len() > MAX_PENDING { all.len() - MAX_PENDING } else { 0 };
    let mut r: Vec<usize> = Vec::new();
    let mut j: usize = start;
    let ghost window = replay_window(inputs@, local, acked);
    let ghost full = unacked_local(inputs@, inputs@.len() as int, local, acked);
    proof {
        assert(window =~= full.skip(start as int));
    }
    while j < all.len()
        invariant
            start <= j <= all@.len(),
            all@.len() == full.len(),
            forall|k: int| 0 <= k < all@.len() ==> all@[k] as int == #[trigger] full[k],
            window == full.skip(start as int),
            r@.len() == j - start,
            forall|k: int| 0 <= k < r@.len() ==> r@[k] as int == #[trigger] window[k],
        decreases all@.len() - j,
    {
        r.push(all[j]);
        j = j + 1;
    }
    r
}

/// Whether an input (controller id, tick) is newer than the acknowledged tick `acked`.
pub open spec fn is_unacked(acked: u64) -> spec_fn((u64, u64)) -> bool {
    |input: (u64, u64)| input.1 > acked
}

/// Forgets the pending inputs (given as (controller id, tick)) that the
/// server has acknowledged, those at or before tick `acked`; the others stay,
/// in their order.
pub fn drop_acked_inputs(inputs: &mut Vec<(u64, u64)>, acked: u64)
    ensures
        final(inputs)@ == old(inputs)@.filter(is_unacked(acked)),
{
    let ghost before = inputs@;
    let mut kept: Vec<(u64, u64)> = Vec::new();
    let mut i: usize = 0;
    while i < inputs.len()
        invariant
            inputs@ == before,
            i <= before.len(),
            kept@ == before.take(i as int).filter(is_unacked(acked)),
        decreases before.len() - i,
    {
        let input = inputs[i];
        proof {
            assert(before.take(i as int + 1) =~= before.take(i as int).push(input));
            before.take(i as int).lemma_filter_push(input, is_unacked(acked));
        }
        if input.1 > acked {
            kept.push(input);
        }
        i = i + 1;
    }
    proof {
        assert(before.take(before.len() as int) =~= before);
    }
    *inputs = kept;
}

} // verus!
