use vstd::prelude::*;
use crate::errors::Error;
use crate::records::{
    MemoryRecord, MemoryView, HandoffRecord, HandoffView, mviews, hviews, opt_view,
};
use crate::order::{
    sort_desc_m, sort_desc_h, sort_memories_desc, latest_memory, latest_handoff, latest_m,
    latest_h, lemma_sort_desc_m_len, lemma_sort_desc_h_newest_first, lemma_sort_desc_m_sorted,
    lemma_sort_desc_m_permutes, lemma_sort_desc_m_filter_len,
};
use crate::resolve::{
    resolve_handoff, handoff_candidates, matches_id, find_by_id, find_memory_by_id,
};
use crate::ids::{next_handoff_id, id_shaped};
use crate::clock::now_timestamp;
use crate::text::{
    lower, lex_le, lex_lt, str_le, str_lt, str_eq, lemma_lex_le_lt_trans, lemma_lex_strict,
};

verus! {

// ---------------------------------------------------------------------------
// The handoff engine: creating a checkpoint over "everything up to the newest
// note right now", and computing the slice of notes a checkpoint covers.
// ---------------------------------------------------------------------------

/// Where a fresh checkpoint's lower bound comes from: the previous
/// checkpoint's target when one exists; otherwise the note at sorted position
/// `window` when more than `window` notes exist; otherwise absent.
pub open spec fn mark_from_id(
    ms: Seq<MemoryView>,
    hs: Seq<HandoffView>,
    window: usize,
) -> Option<Seq<char>> {
    if hs.len() > 0 {
        Some(latest_h(hs).to_memory_id)
    } else if ms.len() > window {
        Some(sort_desc_m(ms)[window as int].id)
    } else {
        None
    }
}

/// Creates a checkpoint bookmarking everything up to the newest note.
///
/// Fails when the window is zero, when no note exists, and when the previous
/// checkpoint already covers the newest note; otherwise the new checkpoint
/// points at the newest note, chains its lower bound from the previous
/// checkpoint (or the first-checkpoint windowing rule), and carries a fresh
/// id, the given timestamp and context fields, and the window.
pub fn mark_handoff(
    memories: &Vec<MemoryRecord>,
    handoffs: &Vec<HandoffRecord>,
    window: usize,
    ts_utc: String,
    cwd: String,
    git_branch: Option<String>,
    git_head: Option<String>,
) -> (r: Result<HandoffRecord, Error>)
    ensures
        ({
            let ms = mviews(memories@);
            let hs = hviews(handoffs@);
            &&& (window == 0 <==> r == Err::<HandoffRecord, Error>(Error::WindowZero))
            &&& (window >= 1 && ms.len() == 0 <==> r == Err::<HandoffRecord, Error>(
                Error::NoMemories,
            ))
            &&& (window >= 1 && ms.len() > 0 && hs.len() > 0 && latest_h(hs).to_memory_id
                == latest_m(ms).id <==> r == Err::<HandoffRecord, Error>(Error::NoNewMemories))
            &&& (r matches Ok(h) ==> {
                &&& window >= 1
                &&& ms.len() > 0
                &&& h@.to_memory_id == latest_m(ms).id
                &&& h@.from_memory_id == mark_from_id(ms, hs, window)
                &&& h@.suggested_window == window
                &&& h@.ts_utc == ts_utc@
                &&& h@.cwd == cwd@
                &&& h@.git_branch == opt_view(git_branch)
                &&& h@.git_head == opt_view(git_head)
                &&& id_shaped(h@.id, "hf"@, 4)
                &&& forall|i: int| 0 <= i < hs.len() ==> lower(#[trigger] hs[i].id) != h@.id
            })
            &&& (window >= 1 && ms.len() > 0 && (hs.len() == 0 || latest_h(hs).to_memory_id
                != latest_m(ms).id) ==> r is Ok)
        }),
{
    let ghost ms = mviews(memories@);
    let ghost hs = hviews(handoffs@);
    if window == 0 {
        return Err(Error::WindowZero);
    }
    let latest = match latest_memory(memories) {
        None => {
            return Err(Error::NoMemories);
        },
        Some(l) => l,
    };
    let prev = latest_handoff(handoffs);
    let from_memory_id: Option<String> = match &prev {
        Some(p) => {
            if str_eq(p.to_memory_id.as_str(), latest.id.as_str()) {
                return Err(Error::NoNewMemories);
            }
            Some(p.to_memory_id.clone())
        },
        None => {
            // The first checkpoint ever: cap its scope to roughly the
            // `window` newest notes.
            proof {
                lemma_sort_desc_m_len(ms);
            }
            let sorted = sort_memories_desc(memories);
            if sorted.len() > window {
                Some(sorted[window].id.clone())
            } else {
                None
            }
        },
    };
    let handoff_id = next_handoff_id(handoffs);
    Ok(
        HandoffRecord {
            id: handoff_id,
            ts_utc,
            from_memory_id,
            to_memory_id: latest.id,
            suggested_window: window,
            cwd,
            git_branch,
            git_head,
        },
    )
}

// ---------------------------------------------------------------------------
// Opening a checkpoint.
// ---------------------------------------------------------------------------

/// A note belongs to a checkpoint's slice when its timestamp is at most the
/// target's and, when a lower bound exists, strictly above it.
pub open spec fn in_slice(m: MemoryView, to_ts: Seq<char>, from_ts: Option<Seq<char>>) -> bool {
    lex_le(m.ts_utc, to_ts) && match from_ts {
        None => true,
        Some(f) => lex_lt(f, m.ts_utc),
    }
}

/// The slice a checkpoint covers: the matching notes, newest first.
pub open spec fn slice_views(
    ms: Seq<MemoryView>,
    to_ts: Seq<char>,
    from_ts: Option<Seq<char>>,
) -> Seq<MemoryView> {
    sort_desc_m(ms.filter(|m: MemoryView| in_slice(m, to_ts, from_ts)))
}

/// The lower-bound timestamp of a checkpoint over given notes: the timestamp
/// of the first note bearing `from_memory_id`, when both exist. A missing
/// note is tolerated: it means no lower bound.
pub open spec fn from_ts_of(ms: Seq<MemoryView>, from_memory_id: Option<Seq<char>>) -> Option<
    Seq<char>,
> {
    match from_memory_id {
        None => None,
        Some(fid) => match find_by_id(ms, fid) {
            None => None,
            Some(f) => Some(f.ts_utc),
        },
    }
}

/// What opening a checkpoint hands back: the checkpoint, its whole slice
/// newest-first, and how many of those notes the caller is asked to show.
pub struct OpenOutcome {
    pub handoff: HandoffRecord,
    pub slice: Vec<MemoryRecord>,
    pub shown: usize,
    pub total: usize,
}

/// The slice data of `o` is exactly what its checkpoint covers over `ms`,
/// shown up to `limit` (or the checkpoint's own window when no limit came).
pub open spec fn open_outcome_ok(o: OpenOutcome, ms: Seq<MemoryView>, limit: Option<usize>) -> bool {
    let h = o.handoff@;
    match find_by_id(ms, h.to_memory_id) {
        None => false,
        Some(to) => {
            let slice = slice_views(ms, to.ts_utc, from_ts_of(ms, h.from_memory_id));
            &&& mviews(o.slice@) == slice
            &&& o.total == slice.len()
            &&& o.shown == vstd::math::min(
                match limit {
                    Some(l) => l as int,
                    None => h.suggested_window as int,
                },
                o.total as int,
            )
        },
    }
}

/// Opens a checkpoint: the given one, or the newest when none is named.
///
/// Fails when no checkpoint exists, when a named prefix resolves to nothing
/// or to several checkpoints, or when the checkpoint's target note is gone;
/// otherwise returns the checkpoint (among duplicate rows of one id, the
/// most recent by timestamp), the notes it covers newest-first, the total
/// count, and the count to show.
pub fn open_handoff(
    memories: &Vec<MemoryRecord>,
    handoffs: &Vec<HandoffRecord>,
    id_prefix: Option<&str>,
    limit: Option<usize>,
) -> (r: Result<OpenOutcome, Error>)
    ensures
        ({
            let ms = mviews(memories@);
            let hs = hviews(handoffs@);
            &&& (r == Err::<OpenOutcome, Error>(Error::NoHandoffs) <==> hs.len() == 0)
            &&& (match id_prefix {
                None => {
                    &&& (hs.len() > 0 ==> (r matches Ok(o) <==> find_by_id(
                        ms,
                        latest_h(hs).to_memory_id,
                    ) is Some))
                    &&& (hs.len() > 0 && find_by_id(ms, latest_h(hs).to_memory_id) is None ==> r
                        == Err::<OpenOutcome, Error>(Error::HandoffTargetMissing))
                    &&& (r matches Ok(o) ==> o.handoff@ == latest_h(hs))
                },
                Some(p) => {
                    let cands = handoff_candidates(p@);
                    &&& (hs.len() > 0 ==> (r == Err::<OpenOutcome, Error>(Error::NotFound) <==>
                        forall|i: int|
                            0 <= i < handoffs@.len() ==> !matches_id(
                                #[trigger] handoffs@[i]@.id,
                                cands,
                            )))
                    &&& (hs.len() > 0 ==> (r == Err::<OpenOutcome, Error>(Error::Ambiguous) <==>
                        exists|i: int, j: int|
                            0 <= i < handoffs@.len() && 0 <= j < handoffs@.len() && matches_id(
                                #[trigger] handoffs@[i]@.id,
                                cands,
                            ) && matches_id(#[trigger] handoffs@[j]@.id, cands) && handoffs@[i]@.id
                                != handoffs@[j]@.id))
                    &&& (hs.len() > 0 && (exists|i: int|
                        0 <= i < handoffs@.len() && matches_id(#[trigger] handoffs@[i]@.id, cands))
                        && (forall|i: int, j: int|
                        0 <= i < handoffs@.len() && 0 <= j < handoffs@.len() && matches_id(
                            #[trigger] handoffs@[i]@.id,
                            cands,
                        ) && matches_id(#[trigger] handoffs@[j]@.id, cands) ==> handoffs@[i]@.id
                            == handoffs@[j]@.id) && (forall|i: int|
                        0 <= i < handoffs@.len() && matches_id(#[trigger] handoffs@[i]@.id, cands)
                            ==> find_by_id(ms, handoffs@[i]@.to_memory_id) is Some) ==> r is Ok)
                    &&& (r matches Ok(o) ==> exists|b: int|
                        0 <= b < handoffs@.len() && matches_id(#[trigger] handoffs@[b]@.id, cands)
                            && handoffs@[b]@ == o.handoff@ && (forall|j: int|
                            0 <= j < handoffs@.len() && matches_id(
                                #[trigger] handoffs@[j]@.id,
                                cands,
                            ) ==> lex_le(handoffs@[j]@.ts_utc, handoffs@[b]@.ts_utc)) && (forall|
                            j: int,
                        |
                            0 <= j < b && matches_id(#[trigger] handoffs@[j]@.id, cands)
                                ==> lex_lt(handoffs@[j]@.ts_utc, handoffs@[b]@.ts_utc)))
                    &&& (r == Err::<OpenOutcome, Error>(Error::HandoffTargetMissing) ==> exists|
                        i: int,
                    |
                        0 <= i < handoffs@.len() && matches_id(#[trigger] handoffs@[i]@.id, cands)
                            && find_by_id(ms, handoffs@[i]@.to_memory_id) is None)
                    &&& (r matches Err(e) ==> (e == Error::NoHandoffs || e == Error::NotFound
                        || e == Error::Ambiguous || e == Error::HandoffTargetMissing))
                },
            })
            &&& (r matches Ok(o) ==> open_outcome_ok(o, ms, limit))
        }),
{
    let ghost ms = mviews(memories@);
    let ghost hs = hviews(handoffs@);
    if handoffs.len() == 0 {
        return Err(Error::NoHandoffs);
    }
    let handoff = match id_prefix {
        Some(prefix) => {
            match resolve_handoff(handoffs, prefix) {
                Ok(h) => h,
                Err(e) => {
                    return Err(e);
                },
            }
        },
        None => {
            match latest_handoff(handoffs) {
                Some(h) => h,
                None => {
                    return Err(Error::NoHandoffs);
                },
            }
        },
    };
    let to = match find_memory_by_id(memories, handoff.to_memory_id.as_str()) {
        Some(t) => t,
        None => {
            return Err(Error::HandoffTargetMissing);
        },
    };
    let from_ts: Option<String> = match &handoff.from_memory_id {
        Some(fid) => {
            match find_memory_by_id(memories, fid.as_str()) {
                Some(f) => Some(f.ts_utc),
                None => None,
            }
        },
        None => None,
    };
    let ghost from_ts_g = from_ts_of(ms, handoff@.from_memory_id);
    proof {
        assert(opt_view(from_ts) == from_ts_g);
    }
    let ghost pred = |m: MemoryView| in_slice(m, to@.ts_utc, from_ts_g);
    let n = memories.len();
    let mut picked: Vec<MemoryRecord> = Vec::new();
    let mut i: usize = 0;
    while i < n
        invariant
            i <= n,
            n == memories@.len(),
            ms == mviews(memories@),
            pred == (|m: MemoryView| in_slice(m, to@.ts_utc, from_ts_g)),
            opt_view(from_ts) == from_ts_g,
            mviews(picked@) == ms.take(i as int).filter(pred),
        decreases n - i,
    {
        proof {
            assert(ms[i as int] == memories@[i as int]@);
        }
        let keep = str_le(memories[i].ts_utc.as_str(), to.ts_utc.as_str()) && (match &from_ts {
            Some(f) => str_lt(f.as_str(), memories[i].ts_utc.as_str()),
            None => true,
        });
        proof {
            assert(ms.take(i + 1).drop_last() =~= ms.take(i as int));
            assert(ms.take(i + 1).last() == ms[i as int]);
            reveal(Seq::filter);
            assert(keep == pred(ms[i as int]));
        }
        if keep {
            picked.push(memories[i].clone());
            proof {
                assert(mviews(picked@) =~= ms.take(i as int).filter(pred).push(ms[i as int]));
            }
        }
        i += 1;
    }
    proof {
        assert(ms.take(n as int) =~= ms);
    }
    let slice = sort_memories_desc(&picked);
    let total = slice.len();
    let show_limit = match limit {
        Some(l) => l,
        None => handoff.suggested_window,
    };
    let shown = if show_limit < total {
        show_limit
    } else {
        total
    };
    proof {
        lemma_sort_desc_m_len(mviews(picked@));
    }
    Ok(OpenOutcome { handoff, slice, shown, total })
}

// ---------------------------------------------------------------------------
// Checkpoint chaining: what two successive marks are guaranteed to do.
// ---------------------------------------------------------------------------

/// Marking twice with no new notes in between fails the second time, and a
/// second successful mark starts exactly where the first one ended.
///
/// `h1` is a checkpoint just created over `ms` (it points at the newest note
/// and its timestamp is strictly newer than every stored checkpoint's). Then,
/// with `h1` stored: marking again over unchanged notes meets exactly the
/// "nothing new to checkpoint" condition, and over notes whose newest id
/// differs a new checkpoint's lower bound is `h1`'s target.
pub proof fn lemma_mark_chaining(
    ms: Seq<MemoryView>,
    hs: Seq<HandoffView>,
    h1: HandoffView,
    ms2: Seq<MemoryView>,
    window: usize,
)
    requires
        ms.len() > 0,
        h1.to_memory_id == latest_m(ms).id,
        forall|i: int| 0 <= i < hs.len() ==> lex_lt((#[trigger] hs[i]).ts_utc, h1.ts_utc),
    ensures
        latest_h(hs.push(h1)) == h1,
        latest_h(hs.push(h1)).to_memory_id == latest_m(ms).id,
        ms2.len() > 0 && latest_m(ms2).id != h1.to_memory_id ==> mark_from_id(
            ms2,
            hs.push(h1),
            window,
        ) == Some(h1.to_memory_id),
{
    lemma_sort_desc_h_newest_first(hs, h1);
}

/// A display-limit override larger than the slice shows the whole slice: the
/// shown count then equals the total.
pub proof fn lemma_open_limit_override(o: OpenOutcome, ms: Seq<MemoryView>, limit: usize)
    requires
        open_outcome_ok(o, ms, Some(limit)),
        limit >= o.total,
    ensures
        o.shown == o.total,
{
}

/// Creates and stamps a checkpoint at the present instant: `mark_handoff`
/// with the timestamp drawn from the system clock.
pub fn mark_handoff_now(
    memories: &Vec<MemoryRecord>,
    handoffs: &Vec<HandoffRecord>,
    window: usize,
    cwd: String,
    git_branch: Option<String>,
    git_head: Option<String>,
) -> (r: Result<HandoffRecord, Error>)
    ensures
        ({
            let ms = mviews(memories@);
            let hs = hviews(handoffs@);
            &&& (window == 0 <==> r == Err::<HandoffRecord, Error>(Error::WindowZero))
            &&& (window >= 1 && ms.len() == 0 <==> r == Err::<HandoffRecord, Error>(
                Error::NoMemories,
            ))
            &&& (window >= 1 && ms.len() > 0 && hs.len() > 0 && latest_h(hs).to_memory_id
                == latest_m(ms).id <==> r == Err::<HandoffRecord, Error>(Error::NoNewMemories))
            &&& (r matches Ok(h) ==> {
                &&& window >= 1
                &&& ms.len() > 0
                &&& h@.to_memory_id == latest_m(ms).id
                &&& h@.from_memory_id == mark_from_id(ms, hs, window)
                &&& h@.suggested_window == window
                &&& h@.ts_utc.len() > 0
                &&& h@.cwd == cwd@
                &&& h@.git_branch == opt_view(git_branch)
                &&& h@.git_head == opt_view(git_head)
                &&& id_shaped(h@.id, "hf"@, 4)
                &&& forall|i: int| 0 <= i < hs.len() ==> lower(#[trigger] hs[i].id) != h@.id
            })
            &&& (window >= 1 && ms.len() > 0 && (hs.len() == 0 || latest_h(hs).to_memory_id
                != latest_m(ms).id) ==> r is Ok)
        }),
{
    let ts_utc = now_timestamp();
    mark_handoff(memories, handoffs, window, ts_utc, cwd, git_branch, git_head)
}

// ---------------------------------------------------------------------------
// First-checkpoint windowing covers exactly the window.
// ---------------------------------------------------------------------------

proof fn lemma_filter_true_prefix(s: Seq<MemoryView>, p: spec_fn(MemoryView) -> bool, w: int)
    requires
        0 <= w <= s.len(),
        forall|k: int| 0 <= k < w ==> p(#[trigger] s[k]),
        forall|k: int| w <= k < s.len() ==> !p(#[trigger] s[k]),
    ensures
        s.filter(p) == s.take(w),
    decreases s.len(),
{
    reveal(Seq::filter);
    if s.len() == 0 {
        assert(s.filter(p) =~= s.take(0));
    } else if w == s.len() {
        let dl = s.drop_last();
        lemma_filter_true_prefix(dl, p, w - 1);
        assert(s.filter(p) == dl.filter(p).push(s.last()));
        assert(dl.take(w - 1) =~= dl);
        assert(dl.push(s.last()) =~= s.take(w));
    } else {
        let dl = s.drop_last();
        lemma_filter_true_prefix(dl, p, w);
        assert(s.filter(p) == dl.filter(p));
        assert(dl.take(w) =~= s.take(w));
    }
}

/// The very first checkpoint covers exactly `window` notes: over notes with
/// pairwise-distinct timestamps, of which there are more than `window`, the
/// slice between the windowing lower bound (the note at sorted position
/// `window`) and the newest note holds exactly `window` notes.
pub proof fn lemma_first_checkpoint_slice_count(ms: Seq<MemoryView>, window: usize)
    requires
        (window as int) < ms.len(),
        forall|i: int, j: int|
            0 <= i < j < ms.len() ==> (#[trigger] ms[i]).ts_utc != (#[trigger] ms[j]).ts_utc,
    ensures
        slice_views(ms, latest_m(ms).ts_utc, Some(sort_desc_m(ms)[window as int].ts_utc)).len()
            == window,
{
    broadcast use vstd::seq_lib::group_to_multiset_ensures;

    let sorted = sort_desc_m(ms);
    lemma_sort_desc_m_len(ms);
    lemma_sort_desc_m_sorted(ms);
    lemma_sort_desc_m_permutes(ms);

    // Distinct timestamps carry over to the sorted order: the sorted notes
    // are the stored notes, and no note repeats.
    assert(ms.no_duplicates()) by {
        assert forall|i: int, j: int|
            0 <= i < ms.len() && 0 <= j < ms.len() && i != j implies ms[i] != ms[j] by {
            if i < j {
                assert(ms[i].ts_utc != ms[j].ts_utc);
            } else {
                assert(ms[j].ts_utc != ms[i].ts_utc);
            }
        }
    }
    ms.lemma_multiset_has_no_duplicates();
    sorted.lemma_multiset_has_no_duplicates_conv();
    assert forall|i: int, j: int|
        0 <= i < j < sorted.len() implies (#[trigger] sorted[i]).ts_utc
        != (#[trigger] sorted[j]).ts_utc by {
        assert(sorted[i] != sorted[j]);
        assert(sorted.contains(sorted[i]) && sorted.contains(sorted[j]));
        assert(ms.to_multiset().count(sorted[i]) > 0 && ms.to_multiset().count(sorted[j]) > 0);
        assert(ms.contains(sorted[i]) && ms.contains(sorted[j]));
        let a = choose|a: int| 0 <= a < ms.len() && ms[a] == sorted[i];
        let b = choose|b: int| 0 <= b < ms.len() && ms[b] == sorted[j];
        assert(a != b);
        if a < b {
            assert(ms[a].ts_utc != ms[b].ts_utc);
        } else {
            assert(ms[b].ts_utc != ms[a].ts_utc);
        }
    }

    let to_ts = sorted[0].ts_utc;
    let from_ts = sorted[window as int].ts_utc;
    let p = |m: MemoryView| in_slice(m, to_ts, Some(from_ts));

    // The slice predicate holds exactly on the `window` newest notes.
    assert forall|k: int| 0 <= k < window implies p(#[trigger] sorted[k]) by {
        assert(lex_le(sorted[k].ts_utc, to_ts));
        assert(lex_le(from_ts, sorted[k].ts_utc));
        assert(sorted[k].ts_utc != from_ts);
    }
    assert forall|k: int| window <= k < sorted.len() implies !p(#[trigger] sorted[k]) by {
        assert(lex_le(sorted[k].ts_utc, from_ts));
        if lex_lt(from_ts, sorted[k].ts_utc) {
            lemma_lex_le_lt_trans(sorted[k].ts_utc, from_ts, sorted[k].ts_utc);
            lemma_lex_strict(sorted[k].ts_utc, sorted[k].ts_utc);
        }
    }
    lemma_filter_true_prefix(sorted, p, window as int);
    assert(sorted.filter(p).len() == window);
    lemma_sort_desc_m_filter_len(ms, p);
    lemma_sort_desc_m_len(ms.filter(p));
}

} // verus!
