use vstd::prelude::*;
use crate::errors::Error;
use crate::records::{
    MemoryRecord, MemoryView, HandoffRecord, HandoffView, mviews, hviews, opt_view,
};
use crate::codec::{
    enc_row, parse_rows, strviews, rowviews, encode_row, parse_content, dec_str, dec_val,
    all_digits, format_usize, parse_usize, lemma_dec_roundtrip, lemma_parse_rows_append,
};

verus! {

// ---------------------------------------------------------------------------
// The backing files: one row per record, behind a fixed header row. What a
// record looks like as a row, and how a whole file reads back.
// ---------------------------------------------------------------------------

/// An optional field serializes as the empty string when absent.
pub open spec fn opt_field(o: Option<Seq<char>>) -> Seq<char> {
    match o {
        None => Seq::empty(),
        Some(s) => s,
    }
}

/// An empty field reads back as absent.
pub open spec fn field_opt(f: Seq<char>) -> Option<Seq<char>> {
    if f.len() == 0 {
        None
    } else {
        Some(f)
    }
}

/// A note's row: id, kind, text, timestamp, working directory, branch,
/// revision.
pub open spec fn memory_fields(m: MemoryView) -> Seq<Seq<char>> {
    seq![m.id, m.kind, m.text, m.ts_utc, m.cwd, opt_field(m.git_branch), opt_field(m.git_head)]
}

/// A checkpoint's row: id, timestamp, lower bound, target, window, working
/// directory, branch, revision.
pub open spec fn handoff_fields(h: HandoffView) -> Seq<Seq<char>> {
    seq![
        h.id,
        h.ts_utc,
        opt_field(h.from_memory_id),
        h.to_memory_id,
        dec_str(h.suggested_window as int),
        h.cwd,
        opt_field(h.git_branch),
        opt_field(h.git_head),
    ]
}

pub open spec fn memory_of_fields(fs: Seq<Seq<char>>) -> Option<MemoryView> {
    if fs.len() == 7 {
        Some(
            MemoryView {
                id: fs[0],
                kind: fs[1],
                text: fs[2],
                ts_utc: fs[3],
                cwd: fs[4],
                git_branch: field_opt(fs[5]),
                git_head: field_opt(fs[6]),
            },
        )
    } else {
        None
    }
}

pub open spec fn handoff_of_fields(fs: Seq<Seq<char>>) -> Option<HandoffView> {
    if fs.len() == 8 && all_digits(fs[4]) && fs[4].len() > 0 && dec_val(fs[4]) <= usize::MAX {
        Some(
            HandoffView {
                id: fs[0],
                ts_utc: fs[1],
                from_memory_id: field_opt(fs[2]),
                to_memory_id: fs[3],
                suggested_window: dec_val(fs[4]) as usize,
                cwd: fs[5],
                git_branch: field_opt(fs[6]),
                git_head: field_opt(fs[7]),
            },
        )
    } else {
        None
    }
}

/// The one shape the row format cannot carry: an optional field that is
/// present but empty, which would read back as absent.
pub open spec fn wf_memory(m: MemoryView) -> bool {
    m.git_branch != Some(Seq::<char>::empty()) && m.git_head != Some(Seq::<char>::empty())
}

pub open spec fn wf_handoff(h: HandoffView) -> bool {
    &&& h.from_memory_id != Some(Seq::<char>::empty())
    &&& h.git_branch != Some(Seq::<char>::empty())
    &&& h.git_head != Some(Seq::<char>::empty())
}

/// A note's row reads back as the note.
pub proof fn lemma_memory_fields_roundtrip(m: MemoryView)
    requires
        wf_memory(m),
    ensures
        memory_of_fields(memory_fields(m)) == Some(m),
{
    match m.git_branch {
        Some(s) => {
            if s.len() == 0 {
                assert(s =~= Seq::<char>::empty());
            }
        },
        None => {},
    }
    match m.git_head {
        Some(s) => {
            if s.len() == 0 {
                assert(s =~= Seq::<char>::empty());
            }
        },
        None => {},
    }
}

/// A checkpoint's row reads back as the checkpoint.
pub proof fn lemma_handoff_fields_roundtrip(h: HandoffView)
    requires
        wf_handoff(h),
    ensures
        handoff_of_fields(handoff_fields(h)) == Some(h),
{
    lemma_dec_roundtrip(h.suggested_window as int);
    match h.from_memory_id {
        Some(s) => {
            if s.len() == 0 {
                assert(s =~= Seq::<char>::empty());
            }
        },
        None => {},
    }
    match h.git_branch {
        Some(s) => {
            if s.len() == 0 {
                assert(s =~= Seq::<char>::empty());
            }
        },
        None => {},
    }
    match h.git_head {
        Some(s) => {
            if s.len() == 0 {
                assert(s =~= Seq::<char>::empty());
            }
        },
        None => {},
    }
}

// ---------------------------------------------------------------------------
// Executable conversion between records and rows of fields.
// ---------------------------------------------------------------------------

fn opt_to_field(o: &Option<String>) -> (r: String)
    ensures
        r@ == opt_field(opt_view(*o)),
{
    match o {
        None => String::new(),
        Some(s) => s.clone(),
    }
}

fn field_to_opt(f: &String) -> (r: Option<String>)
    ensures
        opt_view(r) == field_opt(f@),
{
    if f.as_str().unicode_len() == 0 {
        None
    } else {
        Some(f.clone())
    }
}

fn memory_to_fields(rec: &MemoryRecord) -> (r: Vec<String>)
    ensures
        strviews(r@) == memory_fields(rec@),
{
    let mut out: Vec<String> = Vec::new();
    out.push(rec.id.clone());
    out.push(rec.kind.clone());
    out.push(rec.text.clone());
    out.push(rec.ts_utc.clone());
    out.push(rec.cwd.clone());
    out.push(opt_to_field(&rec.git_branch));
    out.push(opt_to_field(&rec.git_head));
    proof {
        assert(strviews(out@) =~= memory_fields(rec@));
    }
    out
}

fn handoff_to_fields(rec: &HandoffRecord) -> (r: Vec<String>)
    ensures
        strviews(r@) == handoff_fields(rec@),
{
    let mut out: Vec<String> = Vec::new();
    out.push(rec.id.clone());
    out.push(rec.ts_utc.clone());
    out.push(opt_to_field(&rec.from_memory_id));
    out.push(rec.to_memory_id.clone());
    out.push(format_usize(rec.suggested_window));
    out.push(rec.cwd.clone());
    out.push(opt_to_field(&rec.git_branch));
    out.push(opt_to_field(&rec.git_head));
    proof {
        assert(strviews(out@) =~= handoff_fields(rec@));
    }
    out
}

fn fields_to_memory(fields: &Vec<String>) -> (r: Option<MemoryRecord>)
    ensures
        match r {
            None => memory_of_fields(strviews(fields@)) is None,
            Some(m) => memory_of_fields(strviews(fields@)) == Some(m@),
        },
{
    if fields.len() != 7 {
        return None;
    }
    let rec = MemoryRecord {
        id: fields[0].clone(),
        kind: fields[1].clone(),
        text: fields[2].clone(),
        ts_utc: fields[3].clone(),
        cwd: fields[4].clone(),
        git_branch: field_to_opt(&fields[5]),
        git_head: field_to_opt(&fields[6]),
    };
    proof {
        assert(memory_of_fields(strviews(fields@)) == Some(rec@));
    }
    Some(rec)
}

fn fields_to_handoff(fields: &Vec<String>) -> (r: Option<HandoffRecord>)
    ensures
        match r {
            None => handoff_of_fields(strviews(fields@)) is None,
            Some(h) => handoff_of_fields(strviews(fields@)) == Some(h@),
        },
{
    if fields.len() != 8 {
        return None;
    }
    let window = match parse_usize(fields[4].as_str()) {
        None => {
            return None;
        },
        Some(w) => w,
    };
    let rec = HandoffRecord {
        id: fields[0].clone(),
        ts_utc: fields[1].clone(),
        from_memory_id: field_to_opt(&fields[2]),
        to_memory_id: fields[3].clone(),
        suggested_window: window,
        cwd: fields[5].clone(),
        git_branch: field_to_opt(&fields[6]),
        git_head: field_to_opt(&fields[7]),
    };
    proof {
        assert(handoff_of_fields(strviews(fields@)) == Some(rec@));
    }
    Some(rec)
}

// ---------------------------------------------------------------------------
// Appending: one record becomes one encoded row, to be added at the end of
// its file and flushed by the caller that owns the file handle.
// ---------------------------------------------------------------------------

/// The row to append for one note.
pub fn append_memory(rec: &MemoryRecord) -> (row: String)
    ensures
        row@ == enc_row(memory_fields(rec@)),
{
    let fields = memory_to_fields(rec);
    encode_row(&fields)
}

/// The row to append for one checkpoint.
pub fn append_handoff(rec: &HandoffRecord) -> (row: String)
    ensures
        row@ == enc_row(handoff_fields(rec@)),
{
    let fields = handoff_to_fields(rec);
    encode_row(&fields)
}

// ---------------------------------------------------------------------------
// The fixed headers, and the idempotent initialisation decision: a missing or
// empty file gets the header, anything else is left alone.
// ---------------------------------------------------------------------------

pub open spec fn memories_header() -> Seq<char> {
    "id,kind,text,ts_utc,cwd,git_branch,git_head\n"@
}

pub open spec fn handoffs_header() -> Seq<char> {
    "id,ts_utc,from_memory_id,to_memory_id,suggested_window,cwd,git_branch,git_head\n"@
}

/// What to write into the notes file, given its current size (zero when the
/// file is missing): the header for an empty file, nothing otherwise.
pub fn ensure_memories_file(file_len: u64) -> (r: Option<String>)
    ensures
        file_len == 0 ==> (r matches Some(h) && h@ == memories_header()),
        file_len > 0 ==> r is None,
{
    if file_len == 0 {
        Some(String::from_str("id,kind,text,ts_utc,cwd,git_branch,git_head\n"))
    } else {
        None
    }
}

/// What to write into the checkpoints file, given its current size.
pub fn ensure_handoffs_file(file_len: u64) -> (r: Option<String>)
    ensures
        file_len == 0 ==> (r matches Some(h) && h@ == handoffs_header()),
        file_len > 0 ==> r is None,
{
    if file_len == 0 {
        Some(String::from_str(
            "id,ts_utc,from_memory_id,to_memory_id,suggested_window,cwd,git_branch,git_head\n",
        ))
    } else {
        None
    }
}

// ---------------------------------------------------------------------------
// Reading a whole file back.
// ---------------------------------------------------------------------------

pub open spec fn decode_memories(rows: Seq<Seq<Seq<char>>>) -> Option<Seq<MemoryView>>
    decreases rows.len(),
{
    if rows.len() == 0 {
        Some(Seq::empty())
    } else {
        match memory_of_fields(rows[0]) {
            None => None,
            Some(m) => match decode_memories(rows.skip(1)) {
                None => None,
                Some(t) => Some(seq![m] + t),
            },
        }
    }
}

pub open spec fn decode_handoffs(rows: Seq<Seq<Seq<char>>>) -> Option<Seq<HandoffView>>
    decreases rows.len(),
{
    if rows.len() == 0 {
        Some(Seq::empty())
    } else {
        match handoff_of_fields(rows[0]) {
            None => None,
            Some(h) => match decode_handoffs(rows.skip(1)) {
                None => None,
                Some(t) => Some(seq![h] + t),
            },
        }
    }
}

/// What a notes file holds: every row behind the header, each as one note;
/// a file that does not parse, or a row that is no note, is malformed.
pub open spec fn read_memories_content(content: Seq<char>) -> Option<Seq<MemoryView>> {
    match parse_rows(content) {
        None => None,
        Some(rows) => if rows.len() == 0 {
            Some(Seq::empty())
        } else {
            decode_memories(rows.skip(1))
        },
    }
}

/// What a checkpoints file holds.
pub open spec fn read_handoffs_content(content: Seq<char>) -> Option<Seq<HandoffView>> {
    match parse_rows(content) {
        None => None,
        Some(rows) => if rows.len() == 0 {
            Some(Seq::empty())
        } else {
            decode_handoffs(rows.skip(1))
        },
    }
}

fn decode_memory_rows(rows: &Vec<Vec<String>>, i: usize) -> (r: Option<Vec<MemoryRecord>>)
    requires
        i <= rows@.len(),
    ensures
        match r {
            None => decode_memories(rowviews(rows@).skip(i as int)) is None,
            Some(v) => decode_memories(rowviews(rows@).skip(i as int)) == Some(mviews(v@)),
        },
    decreases rows@.len() - i,
{
    let ghost rs = rowviews(rows@).skip(i as int);
    if i == rows.len() {
        let out: Vec<MemoryRecord> = Vec::new();
        proof {
            assert(rs =~= Seq::<Seq<Seq<char>>>::empty());
            assert(mviews(out@) =~= Seq::<MemoryView>::empty());
        }
        return Some(out);
    }
    proof {
        assert(rs[0] == strviews(rows@[i as int]@));
        assert(rs.skip(1) =~= rowviews(rows@).skip(i + 1));
    }
    match fields_to_memory(&rows[i]) {
        None => None,
        Some(m) => {
            match decode_memory_rows(rows, i + 1) {
                None => None,
                Some(mut v) => {
                    let ghost tail = mviews(v@);
                    let ghost m0 = m@;
                    v.insert(0, m);
                    proof {
                        assert(mviews(v@) =~= seq![m0] + tail);
                    }
                    Some(v)
                },
            }
        },
    }
}

fn decode_handoff_rows(rows: &Vec<Vec<String>>, i: usize) -> (r: Option<Vec<HandoffRecord>>)
    requires
        i <= rows@.len(),
    ensures
        match r {
            None => decode_handoffs(rowviews(rows@).skip(i as int)) is None,
            Some(v) => decode_handoffs(rowviews(rows@).skip(i as int)) == Some(hviews(v@)),
        },
    decreases rows@.len() - i,
{
    let ghost rs = rowviews(rows@).skip(i as int);
    if i == rows.len() {
        let out: Vec<HandoffRecord> = Vec::new();
        proof {
            assert(rs =~= Seq::<Seq<Seq<char>>>::empty());
            assert(hviews(out@) =~= Seq::<HandoffView>::empty());
        }
        return Some(out);
    }
    proof {
        assert(rs[0] == strviews(rows@[i as int]@));
        assert(rs.skip(1) =~= rowviews(rows@).skip(i + 1));
    }
    match fields_to_handoff(&rows[i]) {
        None => None,
        Some(h) => {
            match decode_handoff_rows(rows, i + 1) {
                None => None,
                Some(mut v) => {
                    let ghost tail = hviews(v@);
                    let ghost h0 = h@;
                    v.insert(0, h);
                    proof {
                        assert(hviews(v@) =~= seq![h0] + tail);
                    }
                    Some(v)
                },
            }
        },
    }
}

/// Reads every note out of the file's content; a missing file (no content)
/// holds no notes. A malformed file is a fatal error: the store trusts its
/// own writer and does not skip bad rows.
pub fn read_memories(content: Option<&str>) -> (r: Result<Vec<MemoryRecord>, Error>)
    ensures
        match content {
            None => (r matches Ok(v) && v@.len() == 0),
            Some(c) => match read_memories_content(c@) {
                None => r == Err::<Vec<MemoryRecord>, Error>(Error::MalformedRow),
                Some(ms) => (r matches Ok(v) && mviews(v@) == ms),
            },
        },
{
    let c = match content {
        None => {
            return Ok(Vec::new());
        },
        Some(c) => c,
    };
    let rows = match parse_content(c) {
        None => {
            return Err(Error::MalformedRow);
        },
        Some(rows) => rows,
    };
    if rows.len() == 0 {
        let out: Vec<MemoryRecord> = Vec::new();
        proof {
            assert(mviews(out@) =~= Seq::<MemoryView>::empty());
        }
        return Ok(out);
    }
    match decode_memory_rows(&rows, 1) {
        None => Err(Error::MalformedRow),
        Some(v) => Ok(v),
    }
}

/// Reads every checkpoint out of the file's content.
pub fn read_handoffs(content: Option<&str>) -> (r: Result<Vec<HandoffRecord>, Error>)
    ensures
        match content {
            None => (r matches Ok(v) && v@.len() == 0),
            Some(c) => match read_handoffs_content(c@) {
                None => r == Err::<Vec<HandoffRecord>, Error>(Error::MalformedRow),
                Some(hs) => (r matches Ok(v) && hviews(v@) == hs),
            },
        },
{
    let c = match content {
        None => {
            return Ok(Vec::new());
        },
        Some(c) => c,
    };
    let rows = match parse_content(c) {
        None => {
            return Err(Error::MalformedRow);
        },
        Some(rows) => rows,
    };
    if rows.len() == 0 {
        let out: Vec<HandoffRecord> = Vec::new();
        proof {
            assert(hviews(out@) =~= Seq::<HandoffView>::empty());
        }
        return Ok(out);
    }
    match decode_handoff_rows(&rows, 1) {
        None => Err(Error::MalformedRow),
        Some(v) => Ok(v),
    }
}

// ---------------------------------------------------------------------------
// Append-then-read round trip: a readable, headed file with one more note's
// row appended reads back as the same notes with that note at the end —
// absent optional fields included.
// ---------------------------------------------------------------------------

proof fn lemma_decode_memories_push(rs: Seq<Seq<Seq<char>>>, fs: Seq<Seq<char>>, m: MemoryView)
    requires
        decode_memories(rs) is Some,
        memory_of_fields(fs) == Some(m),
    ensures
        decode_memories(rs.push(fs)) == Some(decode_memories(rs)->Some_0.push(m)),
    decreases rs.len(),
{
    if rs.len() == 0 {
        assert(rs.push(fs)[0] == fs);
        assert(rs.push(fs).skip(1) =~= Seq::<Seq<Seq<char>>>::empty());
        assert(decode_memories(Seq::<Seq<Seq<char>>>::empty()) == Some(
            Seq::<MemoryView>::empty(),
        ));
        assert(decode_memories(rs.push(fs).skip(1)) == Some(Seq::<MemoryView>::empty()));
        assert(decode_memories(rs.push(fs)) == Some(seq![m] + Seq::<MemoryView>::empty()));
        assert(seq![m] + Seq::<MemoryView>::empty() =~= decode_memories(rs)->Some_0.push(m));
    } else {
        assert(rs.push(fs)[0] == rs[0]);
        assert(rs.push(fs).skip(1) =~= rs.skip(1).push(fs));
        lemma_decode_memories_push(rs.skip(1), fs, m);
        let m0 = memory_of_fields(rs[0])->Some_0;
        let t = decode_memories(rs.skip(1))->Some_0;
        assert(decode_memories(rs.push(fs)) == Some(seq![m0] + t.push(m)));
        assert(seq![m0] + t.push(m) =~= (seq![m0] + t).push(m));
    }
}

/// Appending one well-formed note's row to a readable, headed file and
/// reading the file back yields the same notes plus that note, its absent
/// optional fields still absent.
pub proof fn lemma_memory_append_roundtrip(content: Seq<char>, rec: MemoryView)
    requires
        read_memories_content(content) is Some,
        parse_rows(content) matches Some(rows) && rows.len() >= 1,
        wf_memory(rec),
    ensures
        read_memories_content(content + enc_row(memory_fields(rec))) == Some(
            read_memories_content(content)->Some_0.push(rec),
        ),
{
    let rows = parse_rows(content)->Some_0;
    lemma_parse_rows_append(content, memory_fields(rec));
    assert(rows.push(memory_fields(rec)).skip(1) =~= rows.skip(1).push(memory_fields(rec)));
    lemma_memory_fields_roundtrip(rec);
    lemma_decode_memories_push(rows.skip(1), memory_fields(rec), rec);
}

/// The rows of a whole list of notes, in order.
pub open spec fn enc_memory_rows(recs: Seq<MemoryView>) -> Seq<char>
    decreases recs.len(),
{
    if recs.len() == 0 {
        Seq::empty()
    } else {
        enc_memory_rows(recs.drop_last()) + enc_row(memory_fields(recs.last()))
    }
}

/// Writing any number of well-formed notes behind a header and reading the
/// file back yields exactly those notes, in order, absent optional fields
/// still absent.
pub proof fn lemma_memories_write_read_roundtrip(content: Seq<char>, recs: Seq<MemoryView>)
    requires
        read_memories_content(content) == Some(Seq::<MemoryView>::empty()),
        parse_rows(content) matches Some(rows) && rows.len() >= 1,
        forall|k: int| 0 <= k < recs.len() ==> wf_memory(#[trigger] recs[k]),
    ensures
        read_memories_content(content + enc_memory_rows(recs)) == Some(recs),
        parse_rows(content + enc_memory_rows(recs)) matches Some(rows2) && rows2.len() >= 1,
    decreases recs.len(),
{
    if recs.len() == 0 {
        assert(content + enc_memory_rows(recs) =~= content);
    } else {
        let dl = recs.drop_last();
        let last = recs.last();
        lemma_memories_write_read_roundtrip(content, dl);
        let grown = content + enc_memory_rows(dl);
        lemma_memory_append_roundtrip(grown, last);
        assert(content + enc_memory_rows(recs) =~= grown + enc_row(memory_fields(last)));
        assert(dl.push(last) =~= recs);
        lemma_parse_rows_append(grown, memory_fields(last));
    }
}

} // verus!
