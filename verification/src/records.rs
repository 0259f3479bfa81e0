use vstd::prelude::*;

verus! {

/// Ghost image of a note: every field as plain mathematical data.
pub ghost struct MemoryView {
    pub id: Seq<char>,
    pub kind: Seq<char>,
    pub text: Seq<char>,
    pub ts_utc: Seq<char>,
    pub cwd: Seq<char>,
    pub git_branch: Option<Seq<char>>,
    pub git_head: Option<Seq<char>>,
}

/// One recorded note: an atomic fact ("what") or rationale ("why").
pub struct MemoryRecord {
    pub id: String,
    pub kind: String,
    pub text: String,
    pub ts_utc: String,
    pub cwd: String,
    pub git_branch: Option<String>,
    pub git_head: Option<String>,
}

/// Ghost image of a checkpoint.
pub ghost struct HandoffView {
    pub id: Seq<char>,
    pub ts_utc: Seq<char>,
    pub from_memory_id: Option<Seq<char>>,
    pub to_memory_id: Seq<char>,
    pub suggested_window: usize,
    pub cwd: Seq<char>,
    pub git_branch: Option<Seq<char>>,
    pub git_head: Option<Seq<char>>,
}

/// One handoff checkpoint: a bookmark over a contiguous, timestamp-ordered
/// range of notes.
pub struct HandoffRecord {
    pub id: String,
    pub ts_utc: String,
    pub from_memory_id: Option<String>,
    pub to_memory_id: String,
    pub suggested_window: usize,
    pub cwd: String,
    pub git_branch: Option<String>,
    pub git_head: Option<String>,
}

pub open spec fn opt_view(o: Option<String>) -> Option<Seq<char>> {
    match o {
        Some(s) => Some(s@),
        None => None,
    }
}

impl View for MemoryRecord {
    type V = MemoryView;

    open spec fn view(&self) -> MemoryView {
        MemoryView {
            id: self.id@,
            kind: self.kind@,
            text: self.text@,
            ts_utc: self.ts_utc@,
            cwd: self.cwd@,
            git_branch: opt_view(self.git_branch),
            git_head: opt_view(self.git_head),
        }
    }
}

impl View for HandoffRecord {
    type V = HandoffView;

    open spec fn view(&self) -> HandoffView {
        HandoffView {
            id: self.id@,
            ts_utc: self.ts_utc@,
            from_memory_id: opt_view(self.from_memory_id),
            to_memory_id: self.to_memory_id@,
            suggested_window: self.suggested_window,
            cwd: self.cwd@,
            git_branch: opt_view(self.git_branch),
            git_head: opt_view(self.git_head),
        }
    }
}

/// The ghost images of a whole list of notes, in the same order.
pub open spec fn mviews(s: Seq<MemoryRecord>) -> Seq<MemoryView> {
    s.map_values(|m: MemoryRecord| m@)
}

/// The ghost images of a whole list of checkpoints, in the same order.
pub open spec fn hviews(s: Seq<HandoffRecord>) -> Seq<HandoffView> {
    s.map_values(|h: HandoffRecord| h@)
}

fn clone_opt_string(o: &Option<String>) -> (r: Option<String>)
    ensures
        opt_view(r) == opt_view(*o),
{
    match o {
        Some(s) => Some(s.clone()),
        None => None,
    }
}

impl Clone for MemoryRecord {
    /// A copy carries exactly the same fields.
    fn clone(&self) -> (r: Self)
        ensures
            r@ == self@,
    {
        MemoryRecord {
            id: self.id.clone(),
            kind: self.kind.clone(),
            text: self.text.clone(),
            ts_utc: self.ts_utc.clone(),
            cwd: self.cwd.clone(),
            git_branch: clone_opt_string(&self.git_branch),
            git_head: clone_opt_string(&self.git_head),
        }
    }
}

impl Clone for HandoffRecord {
    /// A copy carries exactly the same fields.
    fn clone(&self) -> (r: Self)
        ensures
            r@ == self@,
    {
        HandoffRecord {
            id: self.id.clone(),
            ts_utc: self.ts_utc.clone(),
            from_memory_id: clone_opt_string(&self.from_memory_id),
            to_memory_id: self.to_memory_id.clone(),
            suggested_window: self.suggested_window,
            cwd: self.cwd.clone(),
            git_branch: clone_opt_string(&self.git_branch),
            git_head: clone_opt_string(&self.git_head),
        }
    }
}

/// The flat shape a note is handed out in: id, kind, text, timestamp, working
/// directory, branch, revision.
pub type MemoryRow = (String, String, String, String, String, Option<String>, Option<String>);

/// The ghost image of a handed-out row.
pub open spec fn row_view(row: MemoryRow) -> MemoryView {
    MemoryView {
        id: row.0@,
        kind: row.1@,
        text: row.2@,
        ts_utc: row.3@,
        cwd: row.4@,
        git_branch: opt_view(row.5),
        git_head: opt_view(row.6),
    }
}

/// Flattens a note into the row shape.
pub fn to_memory_row(rec: MemoryRecord) -> (r: MemoryRow)
    ensures
        row_view(r) == rec@,
{
    let MemoryRecord { id, kind, text, ts_utc, cwd, git_branch, git_head } = rec;
    (id, kind, text, ts_utc, cwd, git_branch, git_head)
}

} // verus!
