//! Integer parts of reading a problem: the musicians grouped by instrument.
use vstd::prelude::*;

verus! {

/// The positions in `instruments` that hold `k`, in increasing order.
pub open spec fn players_of(instruments: Seq<usize>, k: int) -> Seq<usize>
    decreases instruments.len(),
{
    if instruments.len() == 0 {
        Seq::empty()
    } else {
        let rest = players_of(instruments.drop_last(), k);
        if instruments.last() == k {
            rest.push((instruments.len() - 1) as usize)
        } else {
            rest
        }
    }
}

/// For each instrument, the musicians that play it, in increasing order;
/// `instruments[i]` is the instrument of musician `i`.
pub fn musicians_by_instrument(instruments: &Vec<usize>, n_instruments: usize) -> (r: Vec<Vec<usize>>)
    requires
        forall|i: int| 0 <= i < instruments@.len() ==> #[trigger] instruments@[i] < n_instruments,
    ensures
        r@.len() == n_instruments,
        forall|k: int| 0 <= k < n_instruments ==> #[trigger] r@[k]@ == players_of(instruments@, k),
        forall|i: int|
            0 <= i < instruments@.len() ==> r@[#[trigger] instruments@[i] as int]@.contains(i as usize),
        forall|k: int, t: int|
            0 <= k < n_instruments && 0 <= t < r@[k]@.len() ==> #[trigger] r@[k]@[t] < instruments@.len()
                && instruments@[r@[k]@[t] as int] == k,
        forall|k: int, s: int, t: int|
            0 <= k < n_instruments && 0 <= s < t < r@[k]@.len() ==> #[trigger] r@[k]@[s]
                < #[trigger] r@[k]@[t],
{
    let mut r: Vec<Vec<usize>> = Vec::new();
    let mut k: usize = 0;
    while k < n_instruments
        invariant
            k <= n_instruments,
            r@.len() == k,
            forall|j: int| 0 <= j < k ==> #[trigger] r@[j]@ == Seq::<usize>::empty(),
        decreases n_instruments - k,
    {
        r.push(Vec::new());
        k = k + 1;
    }
    let mut i: usize = 0;
    while i < instruments.len()
        invariant
            i <= instruments@.len(),
            r@.len() == n_instruments,
            forall|j: int| 0 <= j < instruments@.len() ==> #[trigger] instruments@[j] < n_instruments,
            forall|j: int|
                0 <= j < n_instruments ==> #[trigger] r@[j]@ == players_of(
                    instruments@.take(i as int),
                    j,
                ),
        decreases instruments@.len() - i,
    {
        let inst = instruments[i];
        proof {
            assert(instruments@.take(i + 1).drop_last() =~= instruments@.take(i as int));
        }
        r[inst].push(i);
        i = i + 1;
    }
    proof {
        assert(instruments@.take(instruments@.len() as int) =~= instruments@);
        assert forall|i: int| 0 <= i < instruments@.len() implies r@[#[trigger] instruments@[i] as int]@.contains(
            i as usize,
        ) by {
            lemma_players_of(instruments@, instruments@[i] as int);
        }
        assert forall|k: int, t: int|
            0 <= k < n_instruments && 0 <= t < r@[k]@.len() implies #[trigger] r@[k]@[t]
                < instruments@.len() && instruments@[r@[k]@[t] as int] == k by {
            lemma_players_of(instruments@, k);
        }
        assert forall|k: int, s: int, t: int|
            0 <= k < n_instruments && 0 <= s < t < r@[k]@.len() implies #[trigger] r@[k]@[s]
                < #[trigger] r@[k]@[t] by {
            lemma_players_of(instruments@, k);
        }
    }
    r
}

/// The players of `k` are exactly the positions that hold `k`, each once,
/// in increasing order.
pub proof fn lemma_players_of(instruments: Seq<usize>, k: int)
    requires
        instruments.len() <= usize::MAX,
    ensures
        forall|i: int|
            0 <= i < instruments.len() && instruments[i] == k ==> #[trigger] players_of(
                instruments,
                k,
            ).contains(i as usize),
        forall|t: int|
            0 <= t < players_of(instruments, k).len() ==> #[trigger] players_of(instruments, k)[t]
                < instruments.len() && instruments[players_of(instruments, k)[t] as int] == k,
        forall|s: int, t: int|
            0 <= s < t < players_of(instruments, k).len() ==> #[trigger] players_of(instruments, k)[s]
                < #[trigger] players_of(instruments, k)[t],
    decreases instruments.len(),
{
    if instruments.len() > 0 {
        let init = instruments.drop_last();
        lemma_players_of(init, k);
        let rest = players_of(init, k);
        let last = (instruments.len() - 1) as int;
        assert forall|i: int|
            0 <= i < instruments.len() && instruments[i] == k implies #[trigger] players_of(
            instruments,
            k,
        ).contains(i as usize) by {
            if i < last {
                assert(init[i] == instruments[i]);
                assert(rest.contains(i as usize));
                let j = choose|j: int| 0 <= j < rest.len() && rest[j] == i as usize;
                assert(players_of(instruments, k)[j] == i as usize);
            } else {
                let p = players_of(instruments, k);
                assert(p[p.len() - 1] == i as usize);
            }
        }
        let p = players_of(instruments, k);
        if instruments.last() == k {
            assert(p == rest.push(last as usize));
        } else {
            assert(p == rest);
        }
        assert forall|t: int| 0 <= t < p.len() implies #[trigger] p[t] < instruments.len()
            && instruments[p[t] as int] == k by {
            if t < rest.len() {
                assert(p[t] == rest[t]);
                assert(players_of(init, k)[t] < init.len());
                assert(init[rest[t] as int] == instruments[rest[t] as int]);
            } else {
                assert(instruments.last() == k);
                assert(p[t] == last as usize);
            }
        }
        assert forall|s: int, t: int| 0 <= s < t < p.len() implies #[trigger] p[s] < #[trigger] p[t] by {
            if t < rest.len() {
                assert(p[s] == rest[s] && p[t] == rest[t]);
                assert(players_of(init, k)[s] < players_of(init, k)[t]);
            } else {
                assert(instruments.last() == k);
                assert(p[s] == rest[s]);
                assert(players_of(init, k)[s] < init.len());
                assert(p[t] == last as usize);
            }
        }
    }
}

} // verus!
