//! The run scheduler's decisions: where a run resumes, how the unindexed
//! range is partitioned into windows, how the chain reader's status is
//! read, and how the between-run retry interval grows.
use vstd::prelude::*;

verus! {

/// The default number of blocks one window covers.
pub const DEFAULT_WINDOW_SIZE: u64 = 500;

/// The default number of window workers running at once; the bound exists
/// to avoid opening unbounded simultaneous streams against the node.
pub const DEFAULT_WORKER_POOL: usize = 10;

/// What the chain reader says of itself: caught up at a height, still
/// syncing at a height, or not yet started. A reader that has not started
/// is polled again indefinitely — an expected state, never counted against
/// any retry budget.
pub enum ChainStatus {
    Latest(u64),
    Syncing(u64),
    WaitingToStart,
}

/// The height a run can read up to, if the reader serves one at all.
pub fn latest_height_of(status: &ChainStatus) -> (r: Option<u64>)
    ensures
        r == match *status {
            ChainStatus::Latest(h) => Some(h),
            ChainStatus::Syncing(h) => Some(h),
            ChainStatus::WaitingToStart => None::<u64>,
        },
{
    match status {
        ChainStatus::Latest(h) => Some(*h),
        ChainStatus::Syncing(h) => Some(*h),
        ChainStatus::WaitingToStart => None,
    }
}

/// Where a run resumes: just past the checkpoint when one exists, else at
/// the located oldest available block.
pub fn resume_height(checkpoint: Option<u64>, located_earliest: u64) -> (r: u64)
    ensures
        r == match checkpoint {
            Some(c) => if c < u64::MAX {
                (c + 1) as u64
            } else {
                c
            },
            None => located_earliest,
        },
{
    match checkpoint {
        Some(c) => if c < u64::MAX {
            c + 1
        } else {
            c
        },
        None => located_earliest,
    }
}

/// The half-open windows that partition `[resume, latest)`, each at most
/// `window` blocks, in ascending order, back to back.
pub open spec fn window_partition(resume: u64, latest: u64, window: u64) -> Seq<(u64, u64)>
    decreases latest - resume,
{
    if resume >= latest || window == 0 {
        Seq::empty()
    } else {
        let end = if resume + window < latest {
            (resume + window) as u64
        } else {
            latest
        };
        seq![(resume, end)] + window_partition(end, latest, window)
    }
}

/// Partitions `[resume, latest)` into windows of at most `window` blocks.
pub fn partition_windows(resume: u64, latest: u64, window: u64) -> (r: Vec<(u64, u64)>)
    requires
        window > 0,
    ensures
        r@ == window_partition(resume, latest, window),
{
    let mut out: Vec<(u64, u64)> = Vec::new();
    let mut pos = resume;
    proof {
        assert(out@ + window_partition(resume, latest, window) =~= window_partition(
            resume,
            latest,
            window,
        ));
    }
    while pos < latest
        invariant
            window > 0,
            resume <= pos,
            pos <= latest || pos == resume,
            window_partition(resume, latest, window) =~= out@ + window_partition(
                pos,
                latest,
                window,
            ),
        decreases latest - pos,
    {
        let end = if latest - pos > window {
            pos + window
        } else {
            latest
        };
        out.push((pos, end));
        proof {
            assert(window_partition(pos, latest, window) =~= seq![(pos, end)] + window_partition(
                end,
                latest,
                window,
            ));
            assert(window_partition(resume, latest, window) =~= out@ + window_partition(
                end,
                latest,
                window,
            ));
        }
        pos = end;
    }
    proof {
        assert(window_partition(pos, latest, window) =~= Seq::<(u64, u64)>::empty());
        assert(window_partition(resume, latest, window) =~= out@);
    }
    out
}

/// The windows cover exactly `[resume, latest)`: they start at `resume`,
/// end at `latest`, are nonempty, at most `window` long, and back to back.
pub proof fn lemma_window_partition_covers(resume: u64, latest: u64, window: u64)
    requires
        window > 0,
        resume < latest,
    ensures
        window_partition(resume, latest, window).len() > 0,
        window_partition(resume, latest, window).first().0 == resume,
        window_partition(resume, latest, window).last().1 == latest,
        forall|i: int|
            0 <= i < window_partition(resume, latest, window).len() ==> {
                let w = #[trigger] window_partition(resume, latest, window)[i];
                w.0 < w.1 && w.1 - w.0 <= window
            },
        forall|i: int|
            0 < i < window_partition(resume, latest, window).len() ==> (
            #[trigger] window_partition(resume, latest, window)[i]).0 == window_partition(
                resume,
                latest,
                window,
            )[i - 1].1,
    decreases latest - resume,
{
    let ws = window_partition(resume, latest, window);
    let end = if resume + window < latest {
        (resume + window) as u64
    } else {
        latest
    };
    let rest = window_partition(end, latest, window);
    if end < latest {
        lemma_window_partition_covers(end, latest, window);
        assert(ws.last() == rest.last());
    } else {
        assert(rest =~= Seq::<(u64, u64)>::empty());
        assert(ws =~= seq![(resume, end)]);
    }
}

/// The next between-run retry interval: doubled until doubling would
/// overflow, then kept as it is.
pub fn next_retry_interval(secs: u64) -> (r: u64)
    ensures
        r == if 2 * secs <= u64::MAX {
            (2 * secs) as u64
        } else {
            secs
        },
{
    if secs <= u64::MAX / 2 {
        2 * secs
    } else {
        secs
    }
}

} // verus!
