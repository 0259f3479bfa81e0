use vstd::prelude::*;
use crate::records::{MemoryRecord, MemoryView, HandoffRecord, HandoffView, mviews, hviews};
use crate::text::{lex_le, lex_lt, lemma_lex_strict, lemma_lex_total, lemma_lex_le_trans, str_le};

verus! {

// ---------------------------------------------------------------------------
// All read operations order records newest-first by timestamp, with ties kept
// in store order. That is the order a stable descending sort produces, pinned
// here as an insertion sort: an element is placed after every element whose
// timestamp is greater or equal.
// ---------------------------------------------------------------------------

pub open spec fn insert_desc_m(s: Seq<MemoryView>, x: MemoryView) -> Seq<MemoryView>
    decreases s.len(),
{
    if s.len() == 0 {
        seq![x]
    } else if lex_le(x.ts_utc, s[0].ts_utc) {
        seq![s[0]] + insert_desc_m(s.skip(1), x)
    } else {
        seq![x] + s
    }
}

/// Notes ordered newest-first by timestamp, ties in store order.
pub open spec fn sort_desc_m(s: Seq<MemoryView>) -> Seq<MemoryView>
    decreases s.len(),
{
    if s.len() == 0 {
        Seq::empty()
    } else {
        insert_desc_m(sort_desc_m(s.drop_last()), s.last())
    }
}

pub open spec fn insert_desc_h(s: Seq<HandoffView>, x: HandoffView) -> Seq<HandoffView>
    decreases s.len(),
{
    if s.len() == 0 {
        seq![x]
    } else if lex_le(x.ts_utc, s[0].ts_utc) {
        seq![s[0]] + insert_desc_h(s.skip(1), x)
    } else {
        seq![x] + s
    }
}

/// Checkpoints ordered newest-first by timestamp, ties in store order.
pub open spec fn sort_desc_h(s: Seq<HandoffView>) -> Seq<HandoffView>
    decreases s.len(),
{
    if s.len() == 0 {
        Seq::empty()
    } else {
        insert_desc_h(sort_desc_h(s.drop_last()), s.last())
    }
}

// ---------------------------------------------------------------------------
// Where an element lands: after the prefix of greater-or-equal timestamps.
// ---------------------------------------------------------------------------

pub proof fn lemma_insert_desc_m_at(s: Seq<MemoryView>, x: MemoryView, pos: int)
    requires
        0 <= pos <= s.len(),
        forall|i: int| 0 <= i < pos ==> lex_le(x.ts_utc, #[trigger] s[i].ts_utc),
        pos < s.len() ==> !lex_le(x.ts_utc, s[pos].ts_utc),
    ensures
        insert_desc_m(s, x) == s.take(pos) + seq![x] + s.skip(pos),
    decreases pos,
{
    if pos == 0 {
        assert(insert_desc_m(s, x) =~= s.take(0) + seq![x] + s.skip(0));
    } else {
        assert(lex_le(x.ts_utc, s[0].ts_utc));
        assert forall|i: int| 0 <= i < pos - 1 implies lex_le(
            x.ts_utc,
            #[trigger] s.skip(1)[i].ts_utc,
        ) by {
            assert(s.skip(1)[i] == s[i + 1]);
        }
        if pos - 1 < s.skip(1).len() {
            assert(s.skip(1)[pos - 1] == s[pos]);
        }
        lemma_insert_desc_m_at(s.skip(1), x, pos - 1);
        assert(insert_desc_m(s, x) =~= s.take(pos) + seq![x] + s.skip(pos));
    }
}

pub proof fn lemma_insert_desc_h_at(s: Seq<HandoffView>, x: HandoffView, pos: int)
    requires
        0 <= pos <= s.len(),
        forall|i: int| 0 <= i < pos ==> lex_le(x.ts_utc, #[trigger] s[i].ts_utc),
        pos < s.len() ==> !lex_le(x.ts_utc, s[pos].ts_utc),
    ensures
        insert_desc_h(s, x) == s.take(pos) + seq![x] + s.skip(pos),
    decreases pos,
{
    if pos == 0 {
        assert(insert_desc_h(s, x) =~= s.take(0) + seq![x] + s.skip(0));
    } else {
        assert(lex_le(x.ts_utc, s[0].ts_utc));
        assert forall|i: int| 0 <= i < pos - 1 implies lex_le(
            x.ts_utc,
            #[trigger] s.skip(1)[i].ts_utc,
        ) by {
            assert(s.skip(1)[i] == s[i + 1]);
        }
        if pos - 1 < s.skip(1).len() {
            assert(s.skip(1)[pos - 1] == s[pos]);
        }
        lemma_insert_desc_h_at(s.skip(1), x, pos - 1);
        assert(insert_desc_h(s, x) =~= s.take(pos) + seq![x] + s.skip(pos));
    }
}

// ---------------------------------------------------------------------------
// Every element of the sorted sequence comes from the input.
// ---------------------------------------------------------------------------

pub proof fn lemma_insert_desc_h_members(s: Seq<HandoffView>, x: HandoffView, i: int)
    requires
        0 <= i < insert_desc_h(s, x).len(),
    ensures
        insert_desc_h(s, x)[i] == x || exists|j: int| 0 <= j < s.len() && s[j] == insert_desc_h(
            s,
            x,
        )[i],
    decreases s.len(),
{
    if s.len() == 0 {
    } else if lex_le(x.ts_utc, s[0].ts_utc) {
        if i == 0 {
            assert(insert_desc_h(s, x)[0] == s[0]);
        } else {
            lemma_insert_desc_h_members(s.skip(1), x, i - 1);
            assert(insert_desc_h(s, x)[i] == insert_desc_h(s.skip(1), x)[i - 1]);
            if insert_desc_h(s.skip(1), x)[i - 1] != x {
                let j = choose|j: int|
                    0 <= j < s.skip(1).len() && s.skip(1)[j] == insert_desc_h(s.skip(1), x)[i - 1];
                assert(s[j + 1] == insert_desc_h(s, x)[i]);
            }
        }
    } else {
        if i > 0 {
            assert(s[i - 1] == insert_desc_h(s, x)[i]);
        }
    }
}

pub proof fn lemma_sort_desc_h_members(s: Seq<HandoffView>, i: int)
    requires
        0 <= i < sort_desc_h(s).len(),
    ensures
        exists|j: int| 0 <= j < s.len() && s[j] == sort_desc_h(s)[i],
    decreases s.len(),
{
    if s.len() == 0 {
    } else {
        lemma_insert_desc_h_members(sort_desc_h(s.drop_last()), s.last(), i);
        if sort_desc_h(s)[i] == s.last() {
            assert(s[s.len() - 1] == sort_desc_h(s)[i]);
        } else {
            let j = choose|j: int|
                0 <= j < sort_desc_h(s.drop_last()).len() && sort_desc_h(s.drop_last())[j]
                    == sort_desc_h(s)[i];
            lemma_sort_desc_h_members(s.drop_last(), j);
            let k = choose|k: int|
                0 <= k < s.drop_last().len() && s.drop_last()[k] == sort_desc_h(s.drop_last())[j];
            assert(s[k] == sort_desc_h(s)[i]);
        }
    }
}

/// A record with a strictly newer timestamp than everything present comes
/// first once added and sorted.
pub proof fn lemma_sort_desc_h_newest_first(s: Seq<HandoffView>, x: HandoffView)
    requires
        forall|i: int| 0 <= i < s.len() ==> lex_lt(#[trigger] s[i].ts_utc, x.ts_utc),
    ensures
        sort_desc_h(s.push(x)).len() == s.len() + 1,
        sort_desc_h(s.push(x))[0] == x,
{
    assert(s.push(x).drop_last() =~= s);
    assert(sort_desc_h(s.push(x)) == insert_desc_h(sort_desc_h(s), x));
    lemma_sort_desc_h_len(s);
    let sorted = sort_desc_h(s);
    if sorted.len() > 0 {
        lemma_sort_desc_h_members(s, 0);
        let j = choose|j: int| 0 <= j < s.len() && s[j] == sorted[0];
        lemma_lex_strict(sorted[0].ts_utc, x.ts_utc);
        assert(!lex_le(x.ts_utc, sorted[0].ts_utc));
    }
}

pub proof fn lemma_insert_desc_m_len(s: Seq<MemoryView>, x: MemoryView)
    ensures
        insert_desc_m(s, x).len() == s.len() + 1,
    decreases s.len(),
{
    if s.len() > 0 && lex_le(x.ts_utc, s[0].ts_utc) {
        lemma_insert_desc_m_len(s.skip(1), x);
    }
}

pub proof fn lemma_sort_desc_m_len(s: Seq<MemoryView>)
    ensures
        sort_desc_m(s).len() == s.len(),
    decreases s.len(),
{
    if s.len() > 0 {
        lemma_sort_desc_m_len(s.drop_last());
        lemma_insert_desc_m_len(sort_desc_m(s.drop_last()), s.last());
    }
}

pub proof fn lemma_insert_desc_h_len(s: Seq<HandoffView>, x: HandoffView)
    ensures
        insert_desc_h(s, x).len() == s.len() + 1,
    decreases s.len(),
{
    if s.len() > 0 && lex_le(x.ts_utc, s[0].ts_utc) {
        lemma_insert_desc_h_len(s.skip(1), x);
    }
}

pub proof fn lemma_sort_desc_h_len(s: Seq<HandoffView>)
    ensures
        sort_desc_h(s).len() == s.len(),
    decreases s.len(),
{
    if s.len() > 0 {
        lemma_sort_desc_h_len(s.drop_last());
        lemma_insert_desc_h_len(sort_desc_h(s.drop_last()), s.last());
    }
}

// ---------------------------------------------------------------------------
// Executable sorting.
// ---------------------------------------------------------------------------

fn insert_memory_desc(v: &mut Vec<MemoryRecord>, x: MemoryRecord)
    ensures
        mviews(final(v)@) == insert_desc_m(mviews(old(v)@), x@),
{
    let ghost s = mviews(v@);
    let n = v.len();
    let mut pos: usize = 0;
    while pos < n && str_le(x.ts_utc.as_str(), v[pos].ts_utc.as_str())
        invariant
            pos <= n,
            n == v@.len(),
            v@ == old(v)@,
            s == mviews(v@),
            forall|i: int| 0 <= i < pos ==> lex_le(x@.ts_utc, #[trigger] s[i].ts_utc),
        decreases n - pos,
    {
        pos += 1;
    }
    proof {
        lemma_insert_desc_m_at(s, x@, pos as int);
    }
    v.insert(pos, x);
    proof {
        assert(mviews(final(v)@) =~= s.take(pos as int) + seq![x@] + s.skip(pos as int));
    }
}

/// Returns the notes ordered newest-first by timestamp, ties in store order.
pub fn sort_memories_desc(memories: &Vec<MemoryRecord>) -> (r: Vec<MemoryRecord>)
    ensures
        mviews(r@) == sort_desc_m(mviews(memories@)),
{
    let mut out: Vec<MemoryRecord> = Vec::new();
    let mut i: usize = 0;
    while i < memories.len()
        invariant
            i <= memories@.len(),
            mviews(out@) == sort_desc_m(mviews(memories@.take(i as int))),
        decreases memories@.len() - i,
    {
        let rec = memories[i].clone();
        proof {
            assert(mviews(memories@.take(i + 1)).drop_last() =~= mviews(
                memories@.take(i as int),
            ));
            assert(mviews(memories@.take(i + 1)).last() == memories@[i as int]@);
        }
        insert_memory_desc(&mut out, rec);
        i += 1;
    }
    proof {
        assert(memories@.take(memories@.len() as int) =~= memories@);
    }
    out
}

fn insert_handoff_desc(v: &mut Vec<HandoffRecord>, x: HandoffRecord)
    ensures
        hviews(final(v)@) == insert_desc_h(hviews(old(v)@), x@),
{
    let ghost s = hviews(v@);
    let n = v.len();
    let mut pos: usize = 0;
    while pos < n && str_le(x.ts_utc.as_str(), v[pos].ts_utc.as_str())
        invariant
            pos <= n,
            n == v@.len(),
            v@ == old(v)@,
            s == hviews(v@),
            forall|i: int| 0 <= i < pos ==> lex_le(x@.ts_utc, #[trigger] s[i].ts_utc),
        decreases n - pos,
    {
        pos += 1;
    }
    proof {
        lemma_insert_desc_h_at(s, x@, pos as int);
    }
    v.insert(pos, x);
    proof {
        assert(hviews(final(v)@) =~= s.take(pos as int) + seq![x@] + s.skip(pos as int));
    }
}

/// Returns the checkpoints ordered newest-first by timestamp, ties in store
/// order.
pub fn sort_handoffs_desc(handoffs: &Vec<HandoffRecord>) -> (r: Vec<HandoffRecord>)
    ensures
        hviews(r@) == sort_desc_h(hviews(handoffs@)),
{
    let mut out: Vec<HandoffRecord> = Vec::new();
    let mut i: usize = 0;
    while i < handoffs.len()
        invariant
            i <= handoffs@.len(),
            hviews(out@) == sort_desc_h(hviews(handoffs@.take(i as int))),
        decreases handoffs@.len() - i,
    {
        let rec = handoffs[i].clone();
        proof {
            assert(hviews(handoffs@.take(i + 1)).drop_last() =~= hviews(
                handoffs@.take(i as int),
            ));
            assert(hviews(handoffs@.take(i + 1)).last() == handoffs@[i as int]@);
        }
        insert_handoff_desc(&mut out, rec);
        i += 1;
    }
    proof {
        assert(handoffs@.take(handoffs@.len() as int) =~= handoffs@);
    }
    out
}

// ---------------------------------------------------------------------------
// Newest record of each kind.
// ---------------------------------------------------------------------------

/// The newest note: head of the sorted order.
pub open spec fn latest_m(ms: Seq<MemoryView>) -> MemoryView {
    sort_desc_m(ms)[0]
}

/// The newest checkpoint: head of the sorted order.
pub open spec fn latest_h(hs: Seq<HandoffView>) -> HandoffView {
    sort_desc_h(hs)[0]
}

/// The newest note by timestamp; among equal timestamps, the one recorded
/// first.
pub fn latest_memory(memories: &Vec<MemoryRecord>) -> (r: Option<MemoryRecord>)
    ensures
        memories@.len() == 0 ==> r is None,
        memories@.len() > 0 ==> (r matches Some(m) && m@ == latest_m(mviews(memories@))),
{
    proof {
        lemma_sort_desc_m_len(mviews(memories@));
    }
    let sorted = sort_memories_desc(memories);
    if sorted.len() == 0 {
        None
    } else {
        Some(sorted[0].clone())
    }
}

/// The newest checkpoint by timestamp; among equal timestamps, the one
/// recorded first.
pub fn latest_handoff(handoffs: &Vec<HandoffRecord>) -> (r: Option<HandoffRecord>)
    ensures
        handoffs@.len() == 0 ==> r is None,
        handoffs@.len() > 0 ==> (r matches Some(h) && h@ == latest_h(hviews(handoffs@))),
{
    proof {
        lemma_sort_desc_h_len(hviews(handoffs@));
    }
    let sorted = sort_handoffs_desc(handoffs);
    if sorted.len() == 0 {
        None
    } else {
        Some(sorted[0].clone())
    }
}

// ---------------------------------------------------------------------------
// The sorted order is sorted and is a permutation of the input: what the
// first-checkpoint windowing and slice counts rest on.
// ---------------------------------------------------------------------------

/// Newest-first: every later element's timestamp is at most every earlier
/// one's.
pub open spec fn sorted_desc_m(s: Seq<MemoryView>) -> bool {
    forall|i: int, j: int|
        0 <= i <= j < s.len() ==> lex_le(#[trigger] s[j].ts_utc, #[trigger] s[i].ts_utc)
}

proof fn lemma_insert_desc_m_members(s: Seq<MemoryView>, x: MemoryView, i: int)
    requires
        0 <= i < insert_desc_m(s, x).len(),
    ensures
        insert_desc_m(s, x)[i] == x || exists|j: int| 0 <= j < s.len() && s[j] == insert_desc_m(
            s,
            x,
        )[i],
    decreases s.len(),
{
    if s.len() == 0 {
    } else if lex_le(x.ts_utc, s[0].ts_utc) {
        if i == 0 {
            assert(insert_desc_m(s, x)[0] == s[0]);
        } else {
            lemma_insert_desc_m_members(s.skip(1), x, i - 1);
            assert(insert_desc_m(s, x)[i] == insert_desc_m(s.skip(1), x)[i - 1]);
            if insert_desc_m(s.skip(1), x)[i - 1] != x {
                let j = choose|j: int|
                    0 <= j < s.skip(1).len() && s.skip(1)[j] == insert_desc_m(s.skip(1), x)[i - 1];
                assert(s[j + 1] == insert_desc_m(s, x)[i]);
            }
        }
    } else {
        if i > 0 {
            assert(s[i - 1] == insert_desc_m(s, x)[i]);
        }
    }
}

proof fn lemma_insert_desc_m_sorted(s: Seq<MemoryView>, x: MemoryView)
    requires
        sorted_desc_m(s),
    ensures
        sorted_desc_m(insert_desc_m(s, x)),
    decreases s.len(),
{
    let r = insert_desc_m(s, x);
    if s.len() == 0 {
    } else if lex_le(x.ts_utc, s[0].ts_utc) {
        let t = insert_desc_m(s.skip(1), x);
        assert(sorted_desc_m(s.skip(1))) by {
            assert forall|i: int, j: int| 0 <= i <= j < s.skip(1).len() implies lex_le(
                (#[trigger] s.skip(1)[j]).ts_utc,
                (#[trigger] s.skip(1)[i]).ts_utc,
            ) by {
                assert(s.skip(1)[i] == s[i + 1]);
                assert(s.skip(1)[j] == s[j + 1]);
            }
        }
        lemma_insert_desc_m_sorted(s.skip(1), x);
        assert forall|k: int| 0 <= k < t.len() implies lex_le(
            (#[trigger] t[k]).ts_utc,
            s[0].ts_utc,
        ) by {
            lemma_insert_desc_m_members(s.skip(1), x, k);
            if t[k] != x {
                let j = choose|j: int| 0 <= j < s.skip(1).len() && s.skip(1)[j] == t[k];
                assert(s.skip(1)[j] == s[j + 1]);
                assert(lex_le(s[j + 1].ts_utc, s[0].ts_utc));
            }
        }
        assert forall|i: int, j: int| 0 <= i <= j < r.len() implies lex_le(
            (#[trigger] r[j]).ts_utc,
            (#[trigger] r[i]).ts_utc,
        ) by {
            if i == 0 {
                if j > 0 {
                    assert(r[j] == t[j - 1]);
                }
            } else {
                assert(r[i] == t[i - 1]);
                assert(r[j] == t[j - 1]);
            }
        }
    } else {
        lemma_lex_total(x.ts_utc, s[0].ts_utc);
        assert(lex_le(s[0].ts_utc, x.ts_utc));
        assert forall|i: int, j: int| 0 <= i <= j < r.len() implies lex_le(
            (#[trigger] r[j]).ts_utc,
            (#[trigger] r[i]).ts_utc,
        ) by {
            if i == 0 {
                if j > 0 {
                    assert(r[j] == s[j - 1]);
                    assert(lex_le(s[j - 1].ts_utc, s[0].ts_utc));
                    lemma_lex_le_trans(s[j - 1].ts_utc, s[0].ts_utc, x.ts_utc);
                }
            } else {
                assert(r[i] == s[i - 1]);
                assert(r[j] == s[j - 1]);
            }
        }
    }
}

/// The sorted notes are sorted newest-first.
pub proof fn lemma_sort_desc_m_sorted(s: Seq<MemoryView>)
    ensures
        sorted_desc_m(sort_desc_m(s)),
    decreases s.len(),
{
    if s.len() > 0 {
        lemma_sort_desc_m_sorted(s.drop_last());
        lemma_insert_desc_m_sorted(sort_desc_m(s.drop_last()), s.last());
    }
}

proof fn lemma_insert_desc_m_multiset(s: Seq<MemoryView>, x: MemoryView)
    ensures
        insert_desc_m(s, x).to_multiset() == s.to_multiset().insert(x),
    decreases s.len(),
{
    broadcast use vstd::seq_lib::group_to_multiset_ensures;

    if s.len() == 0 {
        assert(seq![x] =~= Seq::<MemoryView>::empty().push(x));
        assert(s =~= Seq::<MemoryView>::empty());
        assert(insert_desc_m(s, x).to_multiset() =~= s.to_multiset().insert(x));
    } else if lex_le(x.ts_utc, s[0].ts_utc) {
        let t = insert_desc_m(s.skip(1), x);
        lemma_insert_desc_m_multiset(s.skip(1), x);
        vstd::seq_lib::lemma_multiset_commutative(seq![s[0]], t);
        assert(s =~= seq![s[0]] + s.skip(1));
        vstd::seq_lib::lemma_multiset_commutative(seq![s[0]], s.skip(1));
        assert(seq![s[0]].to_multiset().add(s.skip(1).to_multiset().insert(x)) =~= seq![
            s[0],
        ].to_multiset().add(s.skip(1).to_multiset()).insert(x));
    } else {
        vstd::seq_lib::lemma_multiset_commutative(seq![x], s);
        assert(seq![x] =~= Seq::<MemoryView>::empty().push(x));
        assert(seq![x].to_multiset().add(s.to_multiset()) =~= s.to_multiset().insert(x));
    }
}

/// The sorted notes are exactly the input notes: a permutation.
pub proof fn lemma_sort_desc_m_permutes(s: Seq<MemoryView>)
    ensures
        sort_desc_m(s).to_multiset() == s.to_multiset(),
    decreases s.len(),
{
    broadcast use vstd::seq_lib::group_to_multiset_ensures;

    if s.len() > 0 {
        lemma_sort_desc_m_permutes(s.drop_last());
        lemma_insert_desc_m_multiset(sort_desc_m(s.drop_last()), s.last());
        assert(s =~= s.drop_last().push(s.last()));
        assert(s.drop_last().push(s.last()).to_multiset() =~= s.drop_last().to_multiset().insert(
            s.last(),
        ));
    }
}

// ---------------------------------------------------------------------------
// Sorting neither adds nor drops matching notes: filters count the same
// before and after.
// ---------------------------------------------------------------------------

proof fn lemma_insert_desc_m_filter_len(
    s: Seq<MemoryView>,
    x: MemoryView,
    p: spec_fn(MemoryView) -> bool,
)
    ensures
        insert_desc_m(s, x).filter(p).len() == s.filter(p).len() + (if p(x) {
            1int
        } else {
            0int
        }),
    decreases s.len(),
{
    reveal(Seq::filter);
    if s.len() == 0 {
        assert(seq![x] =~= Seq::<MemoryView>::empty().push(x));
        Seq::<MemoryView>::empty().lemma_filter_push(x, p);
    } else if lex_le(x.ts_utc, s[0].ts_utc) {
        let t = insert_desc_m(s.skip(1), x);
        lemma_insert_desc_m_filter_len(s.skip(1), x, p);
        Seq::filter_distributes_over_add(seq![s[0]], t, p);
        Seq::filter_distributes_over_add(seq![s[0]], s.skip(1), p);
        assert(s =~= seq![s[0]] + s.skip(1));
    } else {
        Seq::filter_distributes_over_add(seq![x], s, p);
        assert(seq![x] =~= Seq::<MemoryView>::empty().push(x));
        Seq::<MemoryView>::empty().lemma_filter_push(x, p);
    }
}

/// Filtering commutes with sorting in count: the sorted notes hold exactly as
/// many matches as the stored notes.
pub proof fn lemma_sort_desc_m_filter_len(s: Seq<MemoryView>, p: spec_fn(MemoryView) -> bool)
    ensures
        sort_desc_m(s).filter(p).len() == s.filter(p).len(),
    decreases s.len(),
{
    if s.len() > 0 {
        lemma_sort_desc_m_filter_len(s.drop_last(), p);
        lemma_insert_desc_m_filter_len(sort_desc_m(s.drop_last()), s.last(), p);
        s.drop_last().lemma_filter_push(s.last(), p);
        assert(s.drop_last().push(s.last()) =~= s);
    }
}

} // verus!
