use vstd::prelude::*;
use crate::records::{MemoryRecord, HandoffRecord};
use crate::text::{lower, lower_char, lemma_lower_concat, starts_with, str_eq, lower_str};

verus! {

// ---------------------------------------------------------------------------
// Short, human-typeable, collision-free identifiers: a fixed prefix, a dash,
// and a random base-36 suffix. The suffix starts at four characters and grows
// by one after 64 failed draws at the current length.
// ---------------------------------------------------------------------------

/// A lowercase base-36 digit.
pub open spec fn is_base36(c: char) -> bool {
    ('0' <= c && c <= '9') || ('a' <= c && c <= 'z')
}

/// `r` has the shape `prefix`, dash, base-36 suffix of at least `min_suffix`
/// characters.
pub open spec fn id_shaped(r: Seq<char>, prefix: Seq<char>, min_suffix: int) -> bool {
    &&& r.len() >= prefix.len() + 1 + min_suffix
    &&& starts_with(r, prefix.push('-'))
    &&& forall|k: int| prefix.len() + 1 <= k < r.len() ==> is_base36(#[trigger] r[k])
}

/// Relies on rand's thread_rng and Rng::gen_range: a draw from the non-empty
/// range 0..36 returns a value below 36 and does not panic.
#[verifier::external_body]
fn rand_base36_index() -> (r: usize)
    ensures
        r < 36,
{
    rand::Rng::gen_range(&mut rand::thread_rng(), 0..36usize)
}

fn base36_char(i: usize) -> (c: char)
    requires
        i < 36,
    ensures
        is_base36(c),
        lower_char(c) == c,
{
    if i < 10 {
        (48 + i as u8) as char
    } else {
        (87 + i as u8) as char
    }
}

/// A fresh random base-36 string of the given length.
pub fn random_base36(len: usize) -> (r: String)
    ensures
        r@.len() == len,
        forall|k: int| 0 <= k < len ==> is_base36(#[trigger] r@[k]),
        lower(r@) == r@,
{
    let mut out = String::new();
    let mut i: usize = 0;
    while i < len
        invariant
            i <= len,
            out@.len() == i,
            forall|k: int| 0 <= k < i ==> is_base36(#[trigger] out@[k]),
            forall|k: int| 0 <= k < i ==> lower_char(#[trigger] out@[k]) == out@[k],
        decreases len - i,
    {
        let d = rand_base36_index();
        let c = base36_char(d);
        out.push(c);
        i += 1;
    }
    proof {
        assert(lower(out@) =~= out@);
    }
    out
}

/// True when some stored id equals the candidate after ASCII lowercasing.
fn contains_id_lowered(existing_ids: &Vec<String>, candidate: &str) -> (r: bool)
    ensures
        r == exists|i: int|
            0 <= i < existing_ids@.len() && lower(#[trigger] existing_ids@[i]@) == candidate@,
{
    let n = existing_ids.len();
    let mut i: usize = 0;
    while i < n
        invariant
            i <= n,
            n == existing_ids@.len(),
            forall|j: int| 0 <= j < i ==> lower(#[trigger] existing_ids@[j]@) != candidate@,
        decreases n - i,
    {
        let lowered = lower_str(existing_ids[i].as_str());
        if str_eq(lowered.as_str(), candidate) {
            proof {
                assert(lower(existing_ids@[i as int]@) == candidate@);
            }
            return true;
        }
        i += 1;
    }
    false
}

/// Draws random candidates until one differs, after ASCII lowercasing on both
/// sides, from every supplied id; after 64 failed draws at one suffix length
/// the length grows by one.
///
/// The result never duplicates a supplied id case-insensitively, whatever the
/// prefix's case (the identifier uniqueness invariant), carries the given
/// prefix, a dash and a base-36 suffix of at least four characters, and is
/// fully lowercase whenever the prefix is.
pub fn next_short_id(existing_ids: &Vec<String>, prefix: &str) -> (r: String)
    ensures
        forall|i: int|
            0 <= i < existing_ids@.len() ==> lower(#[trigger] existing_ids@[i]@) != lower(r@),
        id_shaped(r@, prefix@, 4),
        lower(prefix@) == prefix@ ==> lower(r@) == r@,
{
    // A candidate longer than every stored id cannot collide, so the draw
    // loop provably stops by the time the suffix outgrows the longest id.
    let n_ids = existing_ids.len();
    let mut maxlen: usize = 0;
    let mut i: usize = 0;
    while i < n_ids
        invariant
            i <= n_ids,
            n_ids == existing_ids@.len(),
            forall|j: int| 0 <= j < i ==> (#[trigger] existing_ids@[j]@).len() <= maxlen,
        decreases n_ids - i,
    {
        let l = existing_ids[i].as_str().unicode_len();
        if l > maxlen {
            maxlen = l;
        }
        i += 1;
    }
    let mut len: usize = 4;
    loop
        invariant
            len >= 4,
            forall|j: int|
                0 <= j < existing_ids@.len() ==> (#[trigger] existing_ids@[j]@).len() <= maxlen,
        decreases maxlen + 1 - len,
    {
        let mut tries: usize = 0;
        while tries < 64
            invariant
                len >= 4,
                forall|j: int|
                    0 <= j < existing_ids@.len() ==> (#[trigger] existing_ids@[j]@).len()
                        <= maxlen,
                tries > 0 ==> len + 1 + prefix@.len() <= maxlen,
            decreases 64 - tries,
        {
            let suffix = random_base36(len);
            let mut candidate = String::from_str(prefix);
            candidate.push('-');
            candidate.append(suffix.as_str());
            proof {
                assert(candidate@ == prefix@.push('-') + suffix@);
                assert(candidate@.subrange(0, prefix@.push('-').len() as int) =~= prefix@.push(
                    '-',
                ));
                assert(forall|k: int|
                    prefix@.len() + 1 <= k < candidate@.len() ==> candidate@[k] == suffix@[k
                        - prefix@.len() - 1]);
                if lower(prefix@) == prefix@ {
                    lemma_lower_concat(prefix@.push('-'), suffix@);
                    assert(lower(prefix@.push('-')) =~= lower(prefix@).push(lower_char('-')));
                    assert(lower(candidate@) == candidate@);
                }
            }
            let candidate_lower = lower_str(candidate.as_str());
            if !contains_id_lowered(existing_ids, candidate_lower.as_str()) {
                return candidate;
            }
            proof {
                let j = choose|j: int|
                    0 <= j < existing_ids@.len() && lower(existing_ids@[j]@) == lower(candidate@);
                assert(lower(existing_ids@[j]@).len() == existing_ids@[j]@.len());
                assert(lower(candidate@).len() == candidate@.len());
                assert(candidate@.len() == prefix@.len() + 1 + len);
            }
            tries += 1;
        }
        len = len + 1;
    }
}

/// A fresh note id: prefix `cr`, unique against every stored note id.
pub fn next_memory_id(memories: &Vec<MemoryRecord>) -> (r: String)
    ensures
        forall|i: int|
            0 <= i < memories@.len() ==> lower(#[trigger] memories@[i]@.id) != lower(r@),
        id_shaped(r@, "cr"@, 4),
        lower(r@) == r@,
{
    let mut ids: Vec<String> = Vec::new();
    let n = memories.len();
    let mut i: usize = 0;
    while i < n
        invariant
            i <= n,
            n == memories@.len(),
            ids@.len() == i,
            forall|j: int| 0 <= j < i ==> #[trigger] ids@[j]@ == memories@[j]@.id,
        decreases n - i,
    {
        ids.push(memories[i].id.clone());
        i += 1;
    }
    proof {
        reveal_strlit("cr");
        assert(lower("cr"@) =~= "cr"@);
    }
    let r = next_short_id(&ids, "cr");
    proof {
        assert forall|k: int| 0 <= k < memories@.len() implies lower(#[trigger] memories@[k]@.id)
            != lower(r@) by {
            assert(ids@[k]@ == memories@[k]@.id);
            assert(lower(ids@[k]@) != lower(r@));
        }
    }
    r
}

/// A fresh checkpoint id: prefix `hf`, unique against every stored checkpoint
/// id.
pub fn next_handoff_id(handoffs: &Vec<HandoffRecord>) -> (r: String)
    ensures
        forall|i: int|
            0 <= i < handoffs@.len() ==> lower(#[trigger] handoffs@[i]@.id) != lower(r@),
        id_shaped(r@, "hf"@, 4),
        lower(r@) == r@,
{
    let mut ids: Vec<String> = Vec::new();
    let n = handoffs.len();
    let mut i: usize = 0;
    while i < n
        invariant
            i <= n,
            n == handoffs@.len(),
            ids@.len() == i,
            forall|j: int| 0 <= j < i ==> #[trigger] ids@[j]@ == handoffs@[j]@.id,
        decreases n - i,
    {
        ids.push(handoffs[i].id.clone());
        i += 1;
    }
    proof {
        reveal_strlit("hf");
        assert(lower("hf"@) =~= "hf"@);
    }
    let r = next_short_id(&ids, "hf");
    proof {
        assert forall|k: int| 0 <= k < handoffs@.len() implies lower(#[trigger] handoffs@[k]@.id)
            != lower(r@) by {
            assert(ids@[k]@ == handoffs@[k]@.id);
            assert(lower(ids@[k]@) != lower(r@));
        }
    }
    r
}

/// Identifier generation never hands back an id already taken: two successive
/// draws stay distinct, case-insensitively, from the supplied set and from
/// each other once the first is added to it.
pub proof fn lemma_ids_stay_fresh(ids: Seq<Seq<char>>, first: Seq<char>, second: Seq<char>)
    requires
        forall|i: int| 0 <= i < ids.len() ==> lower(#[trigger] ids[i]) != lower(first),
        forall|i: int| 0 <= i < ids.push(first).len() ==> lower(#[trigger] ids.push(first)[i])
            != lower(second),
    ensures
        forall|i: int| 0 <= i < ids.len() ==> lower(#[trigger] ids[i]) != lower(second),
        second != first,
{
    assert(lower(ids.push(first)[ids.len() as int]) != lower(second));
    assert forall|i: int| 0 <= i < ids.len() implies lower(#[trigger] ids[i]) != lower(
        second,
    ) by {
        assert(ids.push(first)[i] == ids[i]);
    }
}

} // verus!
