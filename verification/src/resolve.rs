use vstd::prelude::*;
use crate::errors::Error;
use crate::records::{MemoryRecord, HandoffRecord, MemoryView, mviews};
use crate::text::{
    lower, lower_str, starts_with, str_eq, str_starts_with, contains_char, lex_le, lex_lt,
    str_lt, lemma_lex_total, lemma_lex_le_lt_trans,
};

verus! {

// ---------------------------------------------------------------------------
// Prefix resolution: a user-supplied identifier or prefix names exactly one
// record, or the lookup fails as not-found or ambiguous.
// ---------------------------------------------------------------------------

/// The input looks like a bare suffix: no separator of either id form.
pub open spec fn bare_suffix(input: Seq<char>) -> bool {
    !input.contains('-') && !input.contains('_')
}

/// The candidate prefixes tried against every record id: the lowercased input
/// always; for a bare suffix also the input behind the canonical and the
/// legacy id prefix.
pub open spec fn spec_candidates(input: Seq<char>, canonical: Seq<char>, legacy: Seq<char>) -> Seq<
    Seq<char>,
> {
    if bare_suffix(input) {
        seq![lower(input), lower(canonical + input), lower(legacy + input)]
    } else {
        seq![lower(input)]
    }
}

/// A record id matches when its lowercase form begins with some candidate.
pub open spec fn matches_id(id: Seq<char>, cands: Seq<Seq<char>>) -> bool {
    exists|k: int| 0 <= k < cands.len() && starts_with(lower(id), #[trigger] cands[k])
}

/// Builds the candidate prefixes for one input.
pub fn build_prefix_candidates(id_prefix: &str, canonical: &str, legacy: &str) -> (r: Vec<String>)
    ensures
        r@.len() == spec_candidates(id_prefix@, canonical@, legacy@).len(),
        forall|k: int|
            0 <= k < r@.len() ==> #[trigger] r@[k]@ == spec_candidates(
                id_prefix@,
                canonical@,
                legacy@,
            )[k],
{
    let mut out: Vec<String> = Vec::new();
    out.push(lower_str(id_prefix));
    if !contains_char(id_prefix, '-') && !contains_char(id_prefix, '_') {
        let mut with_canonical = String::from_str(canonical);
        with_canonical.append(id_prefix);
        out.push(lower_str(with_canonical.as_str()));
        let mut with_legacy = String::from_str(legacy);
        with_legacy.append(id_prefix);
        out.push(lower_str(with_legacy.as_str()));
    }
    out
}

/// Whether one id begins with any of the candidate prefixes.
pub fn matches_any_prefix(id: &str, candidates: &Vec<String>) -> (r: bool)
    ensures
        r == matches_id(id@, candidates@.map_values(|c: String| c@)),
{
    let ghost cands = candidates@.map_values(|c: String| c@);
    let id_lower = lower_str(id);
    let n = candidates.len();
    let mut k: usize = 0;
    while k < n
        invariant
            k <= n,
            n == candidates@.len(),
            id_lower@ == lower(id@),
            cands == candidates@.map_values(|c: String| c@),
            forall|j: int| 0 <= j < k ==> !starts_with(lower(id@), #[trigger] cands[j]),
        decreases n - k,
    {
        if str_starts_with(id_lower.as_str(), candidates[k].as_str()) {
            proof {
                assert(cands[k as int] == candidates@[k as int]@);
                assert(starts_with(lower(id@), cands[k as int]));
            }
            return true;
        }
        k += 1;
    }
    false
}

// ---------------------------------------------------------------------------
// Resolution over the two record kinds. Notes use canonical prefix "cr-" with
// legacy alternate "c_"; checkpoints use "hf-" with "h_".
// ---------------------------------------------------------------------------

/// The candidates a note lookup tries.
pub open spec fn memory_candidates(input: Seq<char>) -> Seq<Seq<char>> {
    spec_candidates(input, "cr-"@, "c_"@)
}

/// The candidates a checkpoint lookup tries.
pub open spec fn handoff_candidates(input: Seq<char>) -> Seq<Seq<char>> {
    spec_candidates(input, "hf-"@, "h_"@)
}

/// Resolves a note id or prefix to the full id of exactly one note.
///
/// Fails as not-found when nothing matches and as ambiguous when two notes
/// with distinct ids match; otherwise returns the id of the first matching
/// note in store order.
pub fn resolve_memory_id(memories: &Vec<MemoryRecord>, id_prefix: &str) -> (r: Result<
    String,
    Error,
>)
    ensures
        ({
            let cands = memory_candidates(id_prefix@);
            let ms = memories@;
            &&& (r == Err::<String, Error>(Error::NotFound) <==> forall|i: int|
                0 <= i < ms.len() ==> !matches_id(#[trigger] ms[i]@.id, cands))
            &&& (r matches Err(e) ==> (e == Error::NotFound || e == Error::Ambiguous))
            &&& (r == Err::<String, Error>(Error::Ambiguous) <==> exists|i: int, j: int|
                0 <= i < ms.len() && 0 <= j < ms.len() && matches_id(#[trigger] ms[i]@.id, cands)
                    && matches_id(#[trigger] ms[j]@.id, cands) && ms[i]@.id != ms[j]@.id)
            &&& (r matches Ok(id) ==> exists|i: int|
                0 <= i < ms.len() && matches_id(#[trigger] ms[i]@.id, cands) && ms[i]@.id == id@
                    && forall|j: int| 0 <= j < i ==> !matches_id(#[trigger] ms[j]@.id, cands))
            &&& (r matches Ok(id) ==> forall|j: int|
                0 <= j < ms.len() && matches_id(#[trigger] ms[j]@.id, cands) ==> ms[j]@.id == id@)
        }),
{
    let ghost cands = memory_candidates(id_prefix@);
    let candidates = build_prefix_candidates(id_prefix, "cr-", "c_");
    proof {
        assert(candidates@.map_values(|c: String| c@) =~= cands);
    }
    let n = memories.len();
    let mut found: Option<usize> = None;
    let mut i: usize = 0;
    while i < n
        invariant
            i <= n,
            n == memories@.len(),
            cands == memory_candidates(id_prefix@),
            candidates@.map_values(|c: String| c@) == cands,
            match found {
                None => forall|j: int|
                    0 <= j < i ==> !matches_id(#[trigger] memories@[j]@.id, cands),
                Some(f) => {
                    &&& f < i
                    &&& matches_id(memories@[f as int]@.id, cands)
                    &&& forall|j: int|
                        0 <= j < f ==> !matches_id(#[trigger] memories@[j]@.id, cands)
                    &&& forall|j: int|
                        0 <= j < i && matches_id(#[trigger] memories@[j]@.id, cands)
                            ==> memories@[j]@.id == memories@[f as int]@.id
                },
            },
        decreases n - i,
    {
        if matches_any_prefix(memories[i].id.as_str(), &candidates) {
            match found {
                None => {
                    found = Some(i);
                },
                Some(f) => {
                    if !str_eq(memories[i].id.as_str(), memories[f].id.as_str()) {
                        proof {
                            assert(matches_id(memories@[i as int]@.id, cands) && matches_id(
                                memories@[f as int]@.id,
                                cands,
                            ) && memories@[i as int]@.id != memories@[f as int]@.id);
                        }
                        return Err(Error::Ambiguous);
                    }
                },
            }
        }
        i += 1;
    }
    match found {
        None => Err(Error::NotFound),
        Some(f) => Ok(memories[f].id.clone()),
    }
}

/// Resolves a checkpoint id or prefix to exactly one checkpoint.
///
/// Fails as not-found when nothing matches and as ambiguous when two
/// checkpoints with distinct ids match; otherwise returns the matching
/// checkpoint, and should several rows share the one matching id, the most
/// recent of them by timestamp (a defensive fallback: such rows break the
/// uniqueness invariant).
pub fn resolve_handoff(handoffs: &Vec<HandoffRecord>, id_prefix: &str) -> (r: Result<
    HandoffRecord,
    Error,
>)
    ensures
        ({
            let cands = handoff_candidates(id_prefix@);
            let hs = handoffs@;
            &&& (r == Err::<HandoffRecord, Error>(Error::NotFound) <==> forall|i: int|
                0 <= i < hs.len() ==> !matches_id(#[trigger] hs[i]@.id, cands))
            &&& (r matches Err(e) ==> (e == Error::NotFound || e == Error::Ambiguous))
            &&& (r == Err::<HandoffRecord, Error>(Error::Ambiguous) <==> exists|i: int, j: int|
                0 <= i < hs.len() && 0 <= j < hs.len() && matches_id(#[trigger] hs[i]@.id, cands)
                    && matches_id(#[trigger] hs[j]@.id, cands) && hs[i]@.id != hs[j]@.id)
            &&& (r matches Ok(h) ==> exists|b: int|
                0 <= b < hs.len() && matches_id(#[trigger] hs[b]@.id, cands) && hs[b]@ == h@ && (
                forall|j: int|
                    0 <= j < hs.len() && matches_id(#[trigger] hs[j]@.id, cands) ==> lex_le(
                        hs[j]@.ts_utc,
                        hs[b]@.ts_utc,
                    )) && (forall|j: int|
                    0 <= j < b && matches_id(#[trigger] hs[j]@.id, cands) ==> lex_lt(
                        hs[j]@.ts_utc,
                        hs[b]@.ts_utc,
                    )))
            &&& (r matches Ok(h) ==> forall|j: int|
                0 <= j < hs.len() && matches_id(#[trigger] hs[j]@.id, cands) ==> hs[j]@.id == h@.id)
        }),
{
    let ghost cands = handoff_candidates(id_prefix@);
    let candidates = build_prefix_candidates(id_prefix, "hf-", "h_");
    proof {
        assert(candidates@.map_values(|c: String| c@) =~= cands);
    }
    let n = handoffs.len();
    let mut found: Option<usize> = None;
    let mut i: usize = 0;
    while i < n
        invariant
            i <= n,
            n == handoffs@.len(),
            cands == handoff_candidates(id_prefix@),
            candidates@.map_values(|c: String| c@) == cands,
            match found {
                None => forall|j: int|
                    0 <= j < i ==> !matches_id(#[trigger] handoffs@[j]@.id, cands),
                Some(f) => {
                    &&& f < i
                    &&& matches_id(handoffs@[f as int]@.id, cands)
                    &&& forall|j: int|
                        0 <= j < i && matches_id(#[trigger] handoffs@[j]@.id, cands)
                            ==> handoffs@[j]@.id == handoffs@[f as int]@.id
                    &&& forall|j: int|
                        0 <= j < i && matches_id(#[trigger] handoffs@[j]@.id, cands) ==> lex_le(
                            handoffs@[j]@.ts_utc,
                            handoffs@[f as int]@.ts_utc,
                        )
                    &&& forall|j: int|
                        0 <= j < f && matches_id(#[trigger] handoffs@[j]@.id, cands) ==> lex_lt(
                            handoffs@[j]@.ts_utc,
                            handoffs@[f as int]@.ts_utc,
                        )
                },
            },
        decreases n - i,
    {
        if matches_any_prefix(handoffs[i].id.as_str(), &candidates) {
            match found {
                None => {
                    found = Some(i);
                },
                Some(f) => {
                    if !str_eq(handoffs[i].id.as_str(), handoffs[f].id.as_str()) {
                        proof {
                            assert(matches_id(handoffs@[i as int]@.id, cands) && matches_id(
                                handoffs@[f as int]@.id,
                                cands,
                            ) && handoffs@[i as int]@.id != handoffs@[f as int]@.id);
                        }
                        return Err(Error::Ambiguous);
                    }
                    // Several rows share the matching id: keep the most
                    // recent by timestamp, the earliest on a tie.
                    if str_lt(handoffs[f].ts_utc.as_str(), handoffs[i].ts_utc.as_str()) {
                        proof {
                            let ghost tf = handoffs@[f as int]@.ts_utc;
                            let ghost ti = handoffs@[i as int]@.ts_utc;
                            assert forall|j: int|
                                0 <= j < i + 1 && matches_id(
                                    #[trigger] handoffs@[j]@.id,
                                    cands,
                                ) implies lex_le(handoffs@[j]@.ts_utc, ti) by {
                                if j < i {
                                    lemma_lex_le_lt_trans(handoffs@[j]@.ts_utc, tf, ti);
                                }
                            }
                            assert forall|j: int|
                                0 <= j < i && matches_id(
                                    #[trigger] handoffs@[j]@.id,
                                    cands,
                                ) implies lex_lt(handoffs@[j]@.ts_utc, ti) by {
                                lemma_lex_le_lt_trans(handoffs@[j]@.ts_utc, tf, ti);
                            }
                        }
                        found = Some(i);
                    } else {
                        proof {
                            lemma_lex_total(
                                handoffs@[i as int]@.ts_utc,
                                handoffs@[f as int]@.ts_utc,
                            );
                        }
                    }
                },
            }
        }
        i += 1;
    }
    match found {
        None => Err(Error::NotFound),
        Some(f) => Ok(handoffs[f].clone()),
    }
}

// ---------------------------------------------------------------------------
// Exact-id lookup: the first record in store order bearing a given id.
// ---------------------------------------------------------------------------

/// The first note in store order whose id equals `id` exactly.
pub open spec fn find_by_id(ms: Seq<MemoryView>, id: Seq<char>) -> Option<MemoryView>
    decreases ms.len(),
{
    if ms.len() == 0 {
        None
    } else if ms[0].id == id {
        Some(ms[0])
    } else {
        find_by_id(ms.skip(1), id)
    }
}

pub proof fn lemma_find_by_id_skip(ms: Seq<MemoryView>, id: Seq<char>, i: int)
    requires
        0 <= i <= ms.len(),
        forall|j: int| 0 <= j < i ==> (#[trigger] ms[j]).id != id,
    ensures
        find_by_id(ms, id) == find_by_id(ms.skip(i), id),
    decreases i,
{
    if i == 0 {
        assert(ms.skip(0) =~= ms);
    } else {
        assert forall|j: int| 0 <= j < i - 1 implies (#[trigger] ms.skip(1)[j]).id != id by {
            assert(ms.skip(1)[j] == ms[j + 1]);
        }
        lemma_find_by_id_skip(ms.skip(1), id, i - 1);
        assert(ms.skip(1).skip(i - 1) =~= ms.skip(i));
    }
}

/// Finds the first note in store order with exactly the given id.
pub fn find_memory_by_id(memories: &Vec<MemoryRecord>, id: &str) -> (r: Option<MemoryRecord>)
    ensures
        ({
            let found = find_by_id(mviews(memories@), id@);
            match r {
                None => found is None,
                Some(m) => found == Some(m@),
            }
        }),
{
    let ghost ms = mviews(memories@);
    let n = memories.len();
    let mut i: usize = 0;
    while i < n
        invariant
            i <= n,
            n == memories@.len(),
            ms == mviews(memories@),
            forall|j: int| 0 <= j < i ==> (#[trigger] ms[j]).id != id@,
        decreases n - i,
    {
        if str_eq(memories[i].id.as_str(), id) {
            proof {
                lemma_find_by_id_skip(ms, id@, i as int);
                assert(ms.skip(i as int)[0] == ms[i as int]);
            }
            return Some(memories[i].clone());
        }
        i += 1;
    }
    proof {
        lemma_find_by_id_skip(ms, id@, n as int);
    }
    None
}

/// Finds the note bearing exactly the given id; should several rows share it,
/// the most recent by timestamp, the earliest of those on a tie.
pub fn find_memory_latest_by_id(memories: &Vec<MemoryRecord>, id: &str) -> (r: Option<
    MemoryRecord,
>)
    ensures
        ({
            let ms = memories@;
            match r {
                None => forall|k: int| 0 <= k < ms.len() ==> (#[trigger] ms[k]@).id != id@,
                Some(m) => exists|b: int|
                    0 <= b < ms.len() && #[trigger] ms[b]@ == m@ && m@.id == id@ && (forall|j: int|
                        0 <= j < ms.len() && (#[trigger] ms[j]@).id == id@ ==> lex_le(
                            ms[j]@.ts_utc,
                            ms[b]@.ts_utc,
                        )) && (forall|j: int|
                        0 <= j < b && (#[trigger] ms[j]@).id == id@ ==> lex_lt(
                            ms[j]@.ts_utc,
                            ms[b]@.ts_utc,
                        )),
            }
        }),
{
    let n = memories.len();
    let mut found: Option<usize> = None;
    let mut i: usize = 0;
    while i < n
        invariant
            i <= n,
            n == memories@.len(),
            match found {
                None => forall|j: int| 0 <= j < i ==> (#[trigger] memories@[j]@).id != id@,
                Some(b) => {
                    &&& b < i
                    &&& memories@[b as int]@.id == id@
                    &&& forall|j: int|
                        0 <= j < i && (#[trigger] memories@[j]@).id == id@ ==> lex_le(
                            memories@[j]@.ts_utc,
                            memories@[b as int]@.ts_utc,
                        )
                    &&& forall|j: int|
                        0 <= j < b && (#[trigger] memories@[j]@).id == id@ ==> lex_lt(
                            memories@[j]@.ts_utc,
                            memories@[b as int]@.ts_utc,
                        )
                },
            },
        decreases n - i,
    {
        if str_eq(memories[i].id.as_str(), id) {
            match found {
                None => {
                    found = Some(i);
                },
                Some(b) => {
                    // Duplicate rows with one id: keep the most recent by
                    // timestamp, the earliest on a tie.
                    if str_lt(memories[b].ts_utc.as_str(), memories[i].ts_utc.as_str()) {
                        proof {
                            let ghost tb = memories@[b as int]@.ts_utc;
                            let ghost ti = memories@[i as int]@.ts_utc;
                            assert forall|j: int|
                                0 <= j < i + 1 && (#[trigger] memories@[j]@).id
                                    == id@ implies lex_le(memories@[j]@.ts_utc, ti) by {
                                if j < i {
                                    lemma_lex_le_lt_trans(memories@[j]@.ts_utc, tb, ti);
                                }
                            }
                            assert forall|j: int|
                                0 <= j < i && (#[trigger] memories@[j]@).id == id@ implies lex_lt(
                                memories@[j]@.ts_utc,
                                ti,
                            ) by {
                                lemma_lex_le_lt_trans(memories@[j]@.ts_utc, tb, ti);
                            }
                        }
                        found = Some(i);
                    } else {
                        proof {
                            lemma_lex_total(
                                memories@[i as int]@.ts_utc,
                                memories@[b as int]@.ts_utc,
                            );
                        }
                    }
                },
            }
        }
        i += 1;
    }
    match found {
        None => None,
        Some(b) => Some(memories[b].clone()),
    }
}

} // verus!
