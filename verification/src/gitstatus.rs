//! The read-only view of a version-control working tree: which files
//! changed, whether the change is staged, and the current branch. The
//! caller reads the repository and hands in each entry's path and status
//! bits as plain values; everything derived from them is verified.
use vstd::prelude::*;

verus! {

/// The per-entry status bits a repository reports: one flag for each kind
/// of change, separately for the index (staged) and the working tree.
#[derive(Clone, Copy, Debug, PartialEq, Eq, Structural)]
pub struct StatusBits {
    pub index_new: bool,
    pub index_modified: bool,
    pub index_deleted: bool,
    pub index_renamed: bool,
    pub index_typechange: bool,
    pub wt_new: bool,
    pub wt_modified: bool,
    pub wt_deleted: bool,
    pub wt_renamed: bool,
    pub wt_typechange: bool,
}

/// The kind of change shown for one file.
#[derive(Clone, Copy, Debug, PartialEq, Eq, Structural)]
pub enum FileStatus {
    New,
    Modified,
    Deleted,
    Renamed,
    Typechange,
    Unknown,
}

/// One row of the status view: a path, the kind of change, and whether the
/// row describes the index or the working tree.
#[derive(Clone, Debug, PartialEq, Eq)]
pub struct GitFileChange {
    pub path: String,
    pub status: FileStatus,
    pub is_staged: bool,
}

/// The mathematical shape of one row.
#[verifier::ext_equal]
pub struct GitFileChangeV {
    pub path: Seq<char>,
    pub status: FileStatus,
    pub is_staged: bool,
}

impl View for GitFileChange {
    type V = GitFileChangeV;

    open spec fn view(&self) -> GitFileChangeV {
        GitFileChangeV { path: self.path@, status: self.status, is_staged: self.is_staged }
    }
}

pub open spec fn changes_view(cs: Seq<GitFileChange>) -> Seq<GitFileChangeV> {
    Seq::new(cs.len(), |i: int| cs[i]@)
}

pub open spec fn any_staged_bit(b: StatusBits) -> bool {
    b.index_new || b.index_modified || b.index_deleted || b.index_renamed || b.index_typechange
}

pub open spec fn any_wt_bit(b: StatusBits) -> bool {
    b.wt_new || b.wt_modified || b.wt_deleted || b.wt_renamed || b.wt_typechange
}

/// The kind shown for an entry's bits, by precedence: new before modified
/// before deleted before renamed before typechange; anything else is
/// unknown. Index and working-tree flags of one kind count alike.
pub open spec fn spec_map_status(b: StatusBits) -> FileStatus {
    if b.index_new || b.wt_new {
        FileStatus::New
    } else if b.index_modified || b.wt_modified {
        FileStatus::Modified
    } else if b.index_deleted || b.wt_deleted {
        FileStatus::Deleted
    } else if b.index_renamed || b.wt_renamed {
        FileStatus::Renamed
    } else if b.index_typechange || b.wt_typechange {
        FileStatus::Typechange
    } else {
        FileStatus::Unknown
    }
}

/// The kind of change an entry's bits show.
pub fn map_status(b: &StatusBits) -> (r: FileStatus)
    ensures
        r == spec_map_status(*b),
{
    if b.index_new || b.wt_new {
        FileStatus::New
    } else if b.index_modified || b.wt_modified {
        FileStatus::Modified
    } else if b.index_deleted || b.wt_deleted {
        FileStatus::Deleted
    } else if b.index_renamed || b.wt_renamed {
        FileStatus::Renamed
    } else if b.index_typechange || b.wt_typechange {
        FileStatus::Typechange
    } else {
        FileStatus::Unknown
    }
}

/// The rows one entry contributes: a staged row when any index flag is
/// set, then an unstaged row when any working-tree flag is set. A file
/// changed in both places appears twice, as two independent rows.
pub open spec fn spec_entry_changes(path: Seq<char>, b: StatusBits) -> Seq<GitFileChangeV> {
    let staged = if any_staged_bit(b) {
        seq![GitFileChangeV { path: path, status: spec_map_status(b), is_staged: true }]
    } else {
        Seq::empty()
    };
    let unstaged = if any_wt_bit(b) {
        seq![GitFileChangeV { path: path, status: spec_map_status(b), is_staged: false }]
    } else {
        Seq::empty()
    };
    staged + unstaged
}

/// The whole status view for a sequence of entries, in the order given.
pub open spec fn spec_changes(entries: Seq<(Seq<char>, StatusBits)>) -> Seq<GitFileChangeV>
    decreases entries.len(),
{
    if entries.len() == 0 {
        Seq::empty()
    } else {
        spec_entry_changes(entries[0].0, entries[0].1) + spec_changes(entries.drop_first())
    }
}

pub open spec fn entries_view(entries: Seq<(String, StatusBits)>) -> Seq<(Seq<char>, StatusBits)> {
    Seq::new(entries.len(), |i: int| (entries[i].0@, entries[i].1))
}

/// Appends the rows one entry contributes.
fn push_entry_changes(path: &str, b: &StatusBits, out: &mut Vec<GitFileChange>)
    ensures
        changes_view(final(out)@) == changes_view(old(out)@) + spec_entry_changes(path@, *b),
{
    let status = map_status(b);
    if b.index_new || b.index_modified || b.index_deleted || b.index_renamed
        || b.index_typechange {
        out.push(GitFileChange { path: path.to_owned(), status, is_staged: true });
    }
    if b.wt_new || b.wt_modified || b.wt_deleted || b.wt_renamed || b.wt_typechange {
        out.push(GitFileChange { path: path.to_owned(), status, is_staged: false });
    }
    proof {
        assert(changes_view(out@) =~= changes_view(old(out)@) + spec_entry_changes(path@, *b));
    }
}

/// The rows for one entry.
pub fn entry_changes(path: &str, b: &StatusBits) -> (r: Vec<GitFileChange>)
    ensures
        changes_view(r@) == spec_entry_changes(path@, *b),
{
    let mut r: Vec<GitFileChange> = Vec::new();
    proof {
        assert(changes_view(r@) =~= Seq::<GitFileChangeV>::empty());
    }
    push_entry_changes(path, b, &mut r);
    proof {
        assert(Seq::<GitFileChangeV>::empty() + spec_entry_changes(path@, *b)
            =~= spec_entry_changes(path@, *b));
    }
    r
}

/// The whole status view, one or two rows per entry, in entry order.
pub fn build_changes(entries: &Vec<(String, StatusBits)>) -> (r: Vec<GitFileChange>)
    ensures
        changes_view(r@) == spec_changes(entries_view(entries@)),
{
    let ghost ev = entries_view(entries@);
    let mut r: Vec<GitFileChange> = Vec::new();
    let mut i: usize = 0;
    proof {
        assert(ev.skip(0) =~= ev);
        assert(changes_view(r@) =~= Seq::<GitFileChangeV>::empty());
        assert(changes_view(r@) + spec_changes(ev.skip(0)) =~= spec_changes(ev));
    }
    while i < entries.len()
        invariant
            i <= entries.len(),
            ev == entries_view(entries@),
            spec_changes(ev) == changes_view(r@) + spec_changes(ev.skip(i as int)),
        decreases entries.len() - i,
    {
        proof {
            assert(ev.skip(i as int)[0] == ev[i as int]);
            assert(ev.skip(i as int).drop_first() =~= ev.skip(i as int + 1));
        }
        push_entry_changes(entries[i].0.as_str(), &entries[i].1, &mut r);
        i = i + 1;
        proof {
            assert(spec_changes(ev) =~= changes_view(r@) + spec_changes(ev.skip(i as int)));
        }
    }
    proof {
        assert(ev.skip(ev.len() as int).len() == 0);
        assert(spec_changes(ev.skip(ev.len() as int)) =~= Seq::<GitFileChangeV>::empty());
        assert(changes_view(r@) =~= spec_changes(ev));
    }
    r
}

/// The status view of a repository: the reported branch name and the
/// change rows.
#[derive(Clone, Debug, PartialEq, Eq)]
pub struct RepositoryStatus {
    pub branch_name: Option<String>,
    pub changes: Vec<GitFileChange>,
}

/// What a probe of the repository found: the head's short name where one
/// could be read (none for an unborn head), and the raw entries. `None`
/// stands for a folder with no repository at or above it.
#[derive(Clone, Debug, PartialEq, Eq)]
pub struct RepoSnapshot {
    pub branch_name: Option<String>,
    pub entries: Vec<(String, StatusBits)>,
}

/// The branch name the status view reports for a head: its short name
/// where one was read, else the literal head token — reading the branch
/// never fails the caller.
pub open spec fn spec_branch_name(shorthand: Option<Seq<char>>) -> Seq<char> {
    match shorthand {
        Some(s) => s,
        None => seq!['H', 'E', 'A', 'D'],
    }
}

/// The reported branch name for an optional head shorthand.
pub fn branch_name_of_head(shorthand: &Option<String>) -> (r: String)
    ensures
        r@ == spec_branch_name(match *shorthand {
            Some(ref s) => Some(s@),
            None => None,
        }),
{
    match shorthand {
        Some(s) => s.clone(),
        None => {
            proof {
                reveal_strlit("HEAD");
            }
            String::from_str("HEAD")
        },
    }
}

/// The status view built from a probe: a folder without a repository gives
/// none — that is a valid state, not an error. An existing repository
/// always gets a branch name, the head token standing in for a detached
/// or unborn head.
pub fn repository_status(snapshot: &Option<RepoSnapshot>) -> (r: Option<RepositoryStatus>)
    ensures
        (r is Some) == (*snapshot is Some),
        r matches Some(st) ==> (*snapshot) matches Some(sn) && st.branch_name matches Some(b)
            && b@ == spec_branch_name(crate::record::opt_string_view(sn.branch_name))
            && changes_view(st.changes@) == spec_changes(entries_view(sn.entries@)),
{
    match snapshot {
        None => None,
        Some(sn) => {
            let changes = build_changes(&sn.entries);
            let branch = branch_name_of_head(&sn.branch_name);
            Some(RepositoryStatus { branch_name: Some(branch), changes })
        },
    }
}

} // verus!
