use vstd::prelude::*;
use crate::errors::Error;
use crate::records::{
    MemoryRecord, MemoryView, MemoryRow, mviews, opt_view, row_view, to_memory_row,
};
use crate::order::{sort_desc_m, sort_memories_desc, lemma_sort_desc_m_len};
use crate::resolve::{
    memory_candidates, matches_id, resolve_memory_id, find_memory_latest_by_id, bare_suffix,
};
use crate::ids::{next_memory_id, id_shaped};
use crate::clock::now_timestamp;
use crate::text::{
    lower, valid_text, validate_text, is_substring, str_contains, starts_with, lex_le, lex_lt,
};

verus! {

// ---------------------------------------------------------------------------
// The read side of the record store: listing, searching and showing notes,
// and building a fresh note from validated input.
// ---------------------------------------------------------------------------

/// Builds a fresh note from the given text, once validated, under a newly
/// generated id.
///
/// Rejects empty text, text over 100 scalar values, and text holding a line
/// break, with the matching error; otherwise the note carries the given
/// fields verbatim and a fresh lowercase id unique, case-insensitively,
/// against every stored note id.
pub fn add_memory(
    memories: &Vec<MemoryRecord>,
    kind: String,
    text: String,
    ts_utc: String,
    cwd: String,
    git_branch: Option<String>,
    git_head: Option<String>,
) -> (r: Result<MemoryRecord, Error>)
    ensures
        r is Ok <==> valid_text(text@),
        text@.len() == 0 ==> r == Err::<MemoryRecord, Error>(Error::EmptyText),
        text@.len() > 100 ==> r == Err::<MemoryRecord, Error>(Error::TextTooLong),
        0 < text@.len() <= 100 && !valid_text(text@) ==> r == Err::<MemoryRecord, Error>(
            Error::TextHasLineBreak,
        ),
        r matches Ok(m) ==> {
            &&& m@.kind == kind@
            &&& m@.text == text@
            &&& m@.ts_utc == ts_utc@
            &&& m@.cwd == cwd@
            &&& m@.git_branch == opt_view(git_branch)
            &&& m@.git_head == opt_view(git_head)
            &&& id_shaped(m@.id, "cr"@, 4)
            &&& lower(m@.id) == m@.id
            &&& forall|i: int|
                0 <= i < memories@.len() ==> lower(#[trigger] memories@[i]@.id) != m@.id
        },
{
    if let Err(e) = validate_text(text.as_str()) {
        return Err(e);
    }
    let id = next_memory_id(memories);
    Ok(MemoryRecord { id, kind, text, ts_utc, cwd, git_branch, git_head })
}

/// Lists the `limit` newest notes, newest first, as flat rows.
pub fn list_memories(memories: &Vec<MemoryRecord>, limit: usize) -> (r: Vec<MemoryRow>)
    ensures
        ({
            let sorted = sort_desc_m(mviews(memories@));
            &&& r@.len() == vstd::math::min(limit as int, sorted.len() as int)
            &&& forall|i: int| 0 <= i < r@.len() ==> row_view(#[trigger] r@[i]) == sorted[i]
        }),
{
    let ghost sorted_g = sort_desc_m(mviews(memories@));
    proof {
        lemma_sort_desc_m_len(mviews(memories@));
    }
    let mut sorted = sort_memories_desc(memories);
    let n = sorted.len();
    let count = if limit < n {
        limit
    } else {
        n
    };
    let mut out: Vec<MemoryRow> = Vec::new();
    let mut i: usize = 0;
    while i < count
        invariant
            i <= count,
            count <= sorted@.len(),
            count == vstd::math::min(limit as int, sorted_g.len() as int),
            mviews(sorted@) == sorted_g,
            out@.len() == i,
            forall|j: int| 0 <= j < i ==> row_view(#[trigger] out@[j]) == sorted_g[j],
        decreases count - i,
    {
        out.push(to_memory_row(sorted[i].clone()));
        i += 1;
    }
    out
}

/// What `str::to_lowercase` returns: a function of the characters alone.
pub uninterp spec fn fold_lower(s: Seq<char>) -> Seq<char>;

/// Relies on str::to_lowercase: the result depends only on the characters of
/// the input.
#[verifier::external_body]
fn to_lower(s: &str) -> (r: String)
    ensures
        r@ == fold_lower(s@),
{
    s.to_lowercase()
}

/// A note matches a search when its lowercased text contains the lowercased
/// query.
pub open spec fn text_matches(m: MemoryView, query: Seq<char>) -> bool {
    is_substring(fold_lower(m.text), fold_lower(query))
}

/// Case-insensitive substring search over note text: the matching notes,
/// newest first, at most `limit` of them, as flat rows.
pub fn find_memories(memories: &Vec<MemoryRecord>, query: &str, limit: usize) -> (r: Vec<
    MemoryRow,
>)
    ensures
        ({
            let matched = sort_desc_m(
                mviews(memories@).filter(|m: MemoryView| text_matches(m, query@)),
            );
            &&& r@.len() == vstd::math::min(limit as int, matched.len() as int)
            &&& forall|i: int| 0 <= i < r@.len() ==> row_view(#[trigger] r@[i]) == matched[i]
        }),
{
    let ghost ms = mviews(memories@);
    let ghost pred = |m: MemoryView| text_matches(m, query@);
    let needle = to_lower(query);
    let n = memories.len();
    let mut picked: Vec<MemoryRecord> = Vec::new();
    let mut i: usize = 0;
    while i < n
        invariant
            i <= n,
            n == memories@.len(),
            ms == mviews(memories@),
            needle@ == fold_lower(query@),
            pred == (|m: MemoryView| text_matches(m, query@)),
            mviews(picked@) == ms.take(i as int).filter(pred),
        decreases n - i,
    {
        proof {
            assert(ms[i as int] == memories@[i as int]@);
        }
        let hay = to_lower(memories[i].text.as_str());
        let keep = str_contains(hay.as_str(), needle.as_str());
        proof {
            assert(ms.take(i + 1).drop_last() =~= ms.take(i as int));
            assert(ms.take(i + 1).last() == ms[i as int]);
            reveal(Seq::filter);
            assert(keep == pred(ms[i as int]));
        }
        if keep {
            picked.push(memories[i].clone());
            proof {
                assert(mviews(picked@) =~= ms.take(i as int).filter(pred).push(ms[i as int]));
            }
        }
        i += 1;
    }
    proof {
        assert(ms.take(n as int) =~= ms);
    }
    let ghost matched = sort_desc_m(ms.filter(pred));
    proof {
        lemma_sort_desc_m_len(mviews(picked@));
    }
    let sorted = sort_memories_desc(&picked);
    let m = sorted.len();
    let count = if limit < m {
        limit
    } else {
        m
    };
    let mut out: Vec<MemoryRow> = Vec::new();
    let mut j: usize = 0;
    while j < count
        invariant
            j <= count,
            count <= sorted@.len(),
            count == vstd::math::min(limit as int, matched.len() as int),
            mviews(sorted@) == matched,
            out@.len() == j,
            forall|k: int| 0 <= k < j ==> row_view(#[trigger] out@[k]) == matched[k],
        decreases count - j,
    {
        out.push(to_memory_row(sorted[j].clone()));
        j += 1;
    }
    out
}

/// Shows one note by id or unambiguous prefix, as a flat row.
///
/// Fails as not-found when nothing matches and as ambiguous when two notes
/// with distinct ids match; otherwise returns the note bearing the resolved
/// id, and should several rows share that id, the most recent of them by
/// timestamp (a defensive fallback: such rows break the uniqueness
/// invariant).
pub fn show_memory(memories: &Vec<MemoryRecord>, id_prefix: &str) -> (r: Result<MemoryRow, Error>)
    ensures
        ({
            let cands = memory_candidates(id_prefix@);
            let ms = memories@;
            &&& (r == Err::<MemoryRow, Error>(Error::NotFound) <==> forall|i: int|
                0 <= i < ms.len() ==> !matches_id(#[trigger] ms[i]@.id, cands))
            &&& (r == Err::<MemoryRow, Error>(Error::Ambiguous) <==> exists|i: int, j: int|
                0 <= i < ms.len() && 0 <= j < ms.len() && matches_id(#[trigger] ms[i]@.id, cands)
                    && matches_id(#[trigger] ms[j]@.id, cands) && ms[i]@.id != ms[j]@.id)
            &&& (r matches Err(e) ==> (e == Error::NotFound || e == Error::Ambiguous))
            &&& (r matches Ok(row) ==> exists|k: int|
                0 <= k < ms.len() && row_view(row) == #[trigger] ms[k]@ && matches_id(
                    ms[k]@.id,
                    cands,
                ) && (forall|j: int|
                    0 <= j < ms.len() && (#[trigger] ms[j]@).id == ms[k]@.id ==> lex_le(
                        ms[j]@.ts_utc,
                        ms[k]@.ts_utc,
                    )) && (forall|j: int|
                    0 <= j < k && (#[trigger] ms[j]@).id == ms[k]@.id ==> lex_lt(
                        ms[j]@.ts_utc,
                        ms[k]@.ts_utc,
                    )))
        }),
{
    let id = match resolve_memory_id(memories, id_prefix) {
        Ok(id) => id,
        Err(e) => {
            return Err(e);
        },
    };
    let ghost witness = choose|i: int|
        0 <= i < memories@.len() && matches_id(#[trigger] memories@[i]@.id,
            memory_candidates(id_prefix@),
        ) && memories@[i]@.id == id@;
    match find_memory_latest_by_id(memories, id.as_str()) {
        Some(rec) => {
            proof {
                let ms = memories@;
                let b = choose|b: int|
                    0 <= b < ms.len() && #[trigger] ms[b]@ == rec@ && rec@.id == id@ && (forall|
                        j: int,
                    |
                        0 <= j < ms.len() && (#[trigger] ms[j]@).id == id@ ==> lex_le(
                            ms[j]@.ts_utc,
                            ms[b]@.ts_utc,
                        )) && (forall|j: int|
                        0 <= j < b && (#[trigger] ms[j]@).id == id@ ==> lex_lt(
                            ms[j]@.ts_utc,
                            ms[b]@.ts_utc,
                        ));
                assert(ms[b]@.id == ms[witness]@.id);
                assert(matches_id(ms[b]@.id, memory_candidates(id_prefix@)));
            }
            Ok(to_memory_row(rec))
        },
        None => {
            proof {
                assert(memories@[witness]@.id == id@);
                assert(false);
            }
            Err(Error::NotFound)
        },
    }
}

// ---------------------------------------------------------------------------
// A freshly added note is found again, identical, under its own new id.
// ---------------------------------------------------------------------------

/// Adding a note and then resolving its full id finds exactly that note: the
/// new id matches its own full form, no stored note matches it, and every
/// match of that id over the grown store is the new note itself — so showing
/// the note by its id returns the identical text and kind. The one premise
/// beyond what adding guarantees: no already-stored id begins with the new id
/// (a longer stored id with the fresh id as prefix would make the lookup
/// ambiguous).
pub proof fn lemma_add_then_show_unique(ms: Seq<MemoryView>, rec: MemoryView)
    requires
        id_shaped(rec.id, "cr"@, 4),
        lower(rec.id) == rec.id,
        forall|i: int| 0 <= i < ms.len() ==> !starts_with(lower((#[trigger] ms[i]).id), rec.id),
    ensures
        ({
            let ms2 = ms.push(rec);
            let cands = memory_candidates(rec.id);
            &&& matches_id(rec.id, cands)
            &&& forall|j: int| 0 <= j < ms.len() ==> !matches_id((#[trigger] ms2[j]).id, cands)
            &&& forall|j: int|
                0 <= j < ms2.len() && matches_id((#[trigger] ms2[j]).id, cands) ==> ms2[j] == rec
        }),
{
    let ms2 = ms.push(rec);
    let cands = memory_candidates(rec.id);
    reveal_strlit("cr");
    assert(starts_with(rec.id, "cr"@.push('-')));
    assert(rec.id[2] == "cr"@.push('-')[2]);
    assert(rec.id.contains('-')) by {
        assert(rec.id[2] == '-');
    }
    assert(!bare_suffix(rec.id));
    assert(cands == seq![lower(rec.id)]);
    assert(lower(rec.id).subrange(0, lower(rec.id).len() as int) =~= lower(rec.id));
    assert(starts_with(lower(rec.id), cands[0]));
    assert(matches_id(rec.id, cands));
    assert forall|j: int| 0 <= j < ms.len() implies !matches_id(
        (#[trigger] ms2[j]).id,
        cands,
    ) by {
        assert(ms2[j] == ms[j]);
        assert(cands[0] == rec.id);
    }
    assert forall|j: int|
        0 <= j < ms2.len() && matches_id((#[trigger] ms2[j]).id, cands) implies ms2[j] == rec by {
        if j < ms.len() {
            assert(ms2[j] == ms[j]);
        } else {
            assert(ms2[j] == rec);
        }
    }
}

/// Builds and stamps a fresh note at the present instant: `add_memory` with
/// the timestamp drawn from the system clock.
pub fn add_memory_now(
    memories: &Vec<MemoryRecord>,
    kind: String,
    text: String,
    cwd: String,
    git_branch: Option<String>,
    git_head: Option<String>,
) -> (r: Result<MemoryRecord, Error>)
    ensures
        r is Ok <==> valid_text(text@),
        text@.len() == 0 ==> r == Err::<MemoryRecord, Error>(Error::EmptyText),
        text@.len() > 100 ==> r == Err::<MemoryRecord, Error>(Error::TextTooLong),
        0 < text@.len() <= 100 && !valid_text(text@) ==> r == Err::<MemoryRecord, Error>(
            Error::TextHasLineBreak,
        ),
        r matches Ok(m) ==> {
            &&& m@.kind == kind@
            &&& m@.text == text@
            &&& m@.ts_utc.len() > 0
            &&& m@.cwd == cwd@
            &&& m@.git_branch == opt_view(git_branch)
            &&& m@.git_head == opt_view(git_head)
            &&& id_shaped(m@.id, "cr"@, 4)
            &&& lower(m@.id) == m@.id
            &&& forall|i: int|
                0 <= i < memories@.len() ==> lower(#[trigger] memories@[i]@.id) != m@.id
        },
{
    let ts_utc = now_timestamp();
    add_memory(memories, kind, text, ts_utc, cwd, git_branch, git_head)
}

} // verus!
