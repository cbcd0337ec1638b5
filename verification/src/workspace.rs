//! The workspace store: an in-memory index of the saved request files in
//! one folder, kept in step with the folder by whole rescans, plus the
//! selection the presentation layer holds into it. The caller reads and
//! writes the disk and hands in plain listings; every decision about them
//! is verified.
use vstd::prelude::*;

verus! {

use crate::method::HttpMethod;
use crate::record::opt_string_view;
use crate::text::lex_le;

/// One row of the index: a saved request file.
#[derive(Clone, Debug, PartialEq, Eq)]
pub struct FileEntry {
    pub name: String,
    pub path: String,
    pub method: Option<HttpMethod>,
}

/// The mathematical shape of one row.
#[verifier::ext_equal]
pub struct FileEntryV {
    pub name: Seq<char>,
    pub path: Seq<char>,
    pub method: Option<HttpMethod>,
}

impl View for FileEntry {
    type V = FileEntryV;

    open spec fn view(&self) -> FileEntryV {
        FileEntryV { name: self.name@, path: self.path@, method: self.method }
    }
}

/// What the caller reports about one directory child: its file name, its
/// full path, whether it is a regular file, and the file's text where it
/// could be read.
#[derive(Clone, Debug, PartialEq, Eq)]
pub struct DirEntryData {
    pub file_name: String,
    pub path: String,
    pub is_file: bool,
    pub content: Option<String>,
}

/// The mathematical shape of one directory child.
#[verifier::ext_equal]
pub struct DirEntryV {
    pub file_name: Seq<char>,
    pub path: Seq<char>,
    pub is_file: bool,
    pub content: Option<Seq<char>>,
}

impl View for DirEntryData {
    type V = DirEntryV;

    open spec fn view(&self) -> DirEntryV {
        DirEntryV {
            file_name: self.file_name@,
            path: self.path@,
            is_file: self.is_file,
            content: opt_string_view(self.content),
        }
    }
}

pub open spec fn listing_view(listing: Seq<DirEntryData>) -> Seq<DirEntryV> {
    Seq::new(listing.len(), |i: int| listing[i]@)
}

pub open spec fn entries_view(entries: Seq<FileEntry>) -> Seq<FileEntryV> {
    Seq::new(entries.len(), |i: int| entries[i]@)
}

// ===== file names =====

/// The position of the last dot that separates a stem from an extension:
/// a dot at the very front names a hidden file, not an extension.
pub open spec fn last_dot_from(name: Seq<char>, i: int) -> int
    decreases i,
{
    if i <= 0 {
        -1
    } else if name[i] == '.' {
        i
    } else {
        last_dot_from(name, i - 1)
    }
}

pub open spec fn last_dot(name: Seq<char>) -> int {
    if name.len() == 0 {
        -1
    } else {
        last_dot_from(name, name.len() - 1)
    }
}

/// The file name without its extension.
pub open spec fn stem_of(name: Seq<char>) -> Seq<char> {
    if last_dot(name) < 0 {
        name
    } else {
        name.take(last_dot(name))
    }
}

/// The extension, when the name has one.
pub open spec fn ext_of(name: Seq<char>) -> Option<Seq<char>> {
    if last_dot(name) < 0 {
        None
    } else {
        Some(name.skip(last_dot(name) + 1))
    }
}

/// The extensions the scan accepts.
pub open spec fn eligible_name(name: Seq<char>) -> bool {
    match ext_of(name) {
        Some(e) => e == seq!['j', 's', 'o', 'n'] || e == seq!['y', 'a', 'm', 'l'] || e == seq![
            'y',
            'm',
            'l',
        ],
        None => false,
    }
}

/// The index row a directory child becomes.
pub open spec fn entry_of(d: DirEntryV) -> FileEntryV {
    FileEntryV {
        name: stem_of(d.file_name),
        path: d.path,
        method: crate::record::infer_method(d.content),
    }
}

/// The rows of a listing, unsorted: regular files with an accepted
/// extension, one row each; a file that fails to parse still appears,
/// with no verb hint.
pub open spec fn scan_filter(listing: Seq<DirEntryV>) -> Seq<FileEntryV>
    decreases listing.len(),
{
    if listing.len() == 0 {
        Seq::empty()
    } else {
        (if listing[0].is_file && eligible_name(listing[0].file_name) {
            seq![entry_of(listing[0])]
        } else {
            Seq::empty()
        }) + scan_filter(listing.drop_first())
    }
}

proof fn lemma_scan_filter_push(listing: Seq<DirEntryV>, d: DirEntryV)
    ensures
        scan_filter(listing.push(d)) == scan_filter(listing) + (if d.is_file && eligible_name(
            d.file_name,
        ) {
            seq![entry_of(d)]
        } else {
            Seq::empty()
        }),
    decreases listing.len(),
{
    if listing.len() == 0 {
        assert(listing.push(d).drop_first() =~= listing);
        assert(scan_filter(listing.push(d)) =~= scan_filter(listing) + (if d.is_file
            && eligible_name(d.file_name) {
            seq![entry_of(d)]
        } else {
            Seq::empty()
        }));
    } else {
        assert(listing.push(d)[0] == listing[0]);
        assert(listing.push(d).drop_first() =~= listing.drop_first().push(d));
        lemma_scan_filter_push(listing.drop_first(), d);
        assert(scan_filter(listing.push(d)) =~= scan_filter(listing) + (if d.is_file
            && eligible_name(d.file_name) {
            seq![entry_of(d)]
        } else {
            Seq::empty()
        }));
    }
}

// ===== the sort =====

/// The position a row with this name is inserted at: before the first row
/// whose name is strictly greater, so rows with equal names keep their
/// scan order.
pub open spec fn insert_pos(acc: Seq<FileEntryV>, name: Seq<char>) -> int
    decreases acc.len(),
{
    if acc.len() == 0 {
        0
    } else if !lex_le(acc[0].name, name) {
        0
    } else {
        1 + insert_pos(acc.drop_first(), name)
    }
}

pub open spec fn insert_sorted(acc: Seq<FileEntryV>, e: FileEntryV) -> Seq<FileEntryV> {
    acc.insert(insert_pos(acc, e.name), e)
}

/// The rows sorted by name, stably: rows are inserted in scan order, each
/// after any earlier row of the same name.
pub open spec fn sort_entries(s: Seq<FileEntryV>) -> Seq<FileEntryV>
    decreases s.len(),
{
    if s.len() == 0 {
        Seq::empty()
    } else {
        insert_sorted(sort_entries(s.drop_last()), s.last())
    }
}

proof fn lemma_insert_pos_bounds(acc: Seq<FileEntryV>, name: Seq<char>)
    ensures
        0 <= insert_pos(acc, name) <= acc.len(),
    decreases acc.len(),
{
    if acc.len() > 0 && lex_le(acc[0].name, name) {
        lemma_insert_pos_bounds(acc.drop_first(), name);
    }
}

/// Nondecreasing names.
pub open spec fn sorted_by_name(s: Seq<FileEntryV>) -> bool {
    forall|i: int, j: int|
        0 <= i < j < s.len() ==> lex_le((#[trigger] s[i]).name, (#[trigger] s[j]).name)
}

proof fn lemma_insert_pos_split(acc: Seq<FileEntryV>, name: Seq<char>)
    requires
        sorted_by_name(acc),
    ensures
        forall|t: int|
            0 <= t < insert_pos(acc, name) ==> lex_le((#[trigger] acc[t]).name, name),
        forall|t: int|
            insert_pos(acc, name) <= t < acc.len() ==> lex_le(name, (#[trigger] acc[t]).name),
    decreases acc.len(),
{
    lemma_insert_pos_bounds(acc, name);
    if acc.len() > 0 {
        let tail = acc.drop_first();
        assert forall|i: int, j: int| 0 <= i < j < tail.len() implies lex_le(
            (#[trigger] tail[i]).name,
            (#[trigger] tail[j]).name,
        ) by {
            assert(tail[i] == acc[i + 1] && tail[j] == acc[j + 1]);
        }
        lemma_insert_pos_split(tail, name);
        let p = insert_pos(acc, name);
        if lex_le(acc[0].name, name) {
            lemma_insert_pos_bounds(tail, name);
            assert forall|t: int| 0 <= t < p implies lex_le((#[trigger] acc[t]).name, name) by {
                if t > 0 {
                    assert(tail[t - 1] == acc[t]);
                }
            }
            assert forall|t: int| p <= t < acc.len() implies lex_le(
                name,
                (#[trigger] acc[t]).name,
            ) by {
                assert(tail[t - 1] == acc[t]);
            }
        } else {
            crate::text::lemma_lex_le_total(acc[0].name, name);
            assert forall|t: int| p <= t < acc.len() implies lex_le(
                name,
                (#[trigger] acc[t]).name,
            ) by {
                if t > 0 {
                    crate::text::lemma_lex_le_trans(name, acc[0].name, acc[t].name);
                }
            }
        }
    }
}

/// Inserting at the computed position keeps the rows sorted.
proof fn lemma_insert_sorted_keeps(acc: Seq<FileEntryV>, e: FileEntryV)
    requires
        sorted_by_name(acc),
    ensures
        sorted_by_name(insert_sorted(acc, e)),
{
    lemma_insert_pos_bounds(acc, e.name);
    lemma_insert_pos_split(acc, e.name);
    let p = insert_pos(acc, e.name);
    let out = acc.insert(p, e);
    assert forall|i: int, j: int| 0 <= i < j < out.len() implies lex_le(
        (#[trigger] out[i]).name,
        (#[trigger] out[j]).name,
    ) by {
        if i < p && j < p {
            assert(out[i] == acc[i] && out[j] == acc[j]);
        } else if i < p && j == p {
            assert(out[i] == acc[i]);
        } else if i < p && j > p {
            assert(out[i] == acc[i] && out[j] == acc[j - 1]);
        } else if i == p && j > p {
            assert(out[j] == acc[j - 1]);
        } else if i > p && j > p {
            assert(out[i] == acc[i - 1] && out[j] == acc[j - 1]);
        }
    }
}

proof fn lemma_insert_to_multiset(acc: Seq<FileEntryV>, p: int, e: FileEntryV)
    requires
        0 <= p <= acc.len(),
    ensures
        acc.insert(p, e).to_multiset() == acc.to_multiset().insert(e),
{
    broadcast use vstd::seq_lib::group_to_multiset_ensures;

    let out = acc.insert(p, e);
    assert(out[p] == e);
    assert(out.remove(p) =~= acc);
    assert(out.remove(p).to_multiset() =~= out.to_multiset().remove(out[p]));
    assert(out.contains(e));
    assert(out.to_multiset().count(e) > 0);
    assert(out.to_multiset() =~= acc.to_multiset().insert(e));
}

/// The sorted index is a permutation of the scanned rows: sorting loses
/// nothing and invents nothing.
pub proof fn lemma_sort_entries_permutes(s: Seq<FileEntryV>)
    ensures
        sort_entries(s).to_multiset() == s.to_multiset(),
    decreases s.len(),
{
    broadcast use vstd::seq_lib::group_to_multiset_ensures;

    if s.len() > 0 {
        let init = s.drop_last();
        let e = s.last();
        lemma_sort_entries_permutes(init);
        lemma_insert_pos_bounds(sort_entries(init), e.name);
        lemma_insert_to_multiset(sort_entries(init), insert_pos(sort_entries(init), e.name), e);
        assert(s =~= init.push(e));
        assert(init.push(e).to_multiset() =~= init.to_multiset().insert(e));
    }
}

/// The index a scan produces is sorted by display name.
pub proof fn lemma_sort_entries_sorted(s: Seq<FileEntryV>)
    ensures
        sorted_by_name(sort_entries(s)),
    decreases s.len(),
{
    if s.len() > 0 {
        lemma_sort_entries_sorted(s.drop_last());
        lemma_insert_sorted_keeps(sort_entries(s.drop_last()), s.last());
    }
}

/// What a scan of this listing yields: the eligible rows, sorted by name.
pub open spec fn scan_spec(listing: Seq<DirEntryV>) -> Seq<FileEntryV> {
    sort_entries(scan_filter(listing))
}

// ===== the store =====

/// The store's whole state.
#[derive(Debug)]
pub struct Workspace {
    pub current_folder: Option<String>,
    pub entries: Vec<FileEntry>,
    pub selected: Option<usize>,
}

/// The mathematical shape of the store.
#[verifier::ext_equal]
pub struct WorkspaceV {
    pub current_folder: Option<Seq<char>>,
    pub entries: Seq<FileEntryV>,
    pub selected: Option<int>,
}

pub open spec fn opt_usize_view(o: Option<usize>) -> Option<int> {
    match o {
        Some(i) => Some(i as int),
        None => None,
    }
}

impl View for Workspace {
    type V = WorkspaceV;

    open spec fn view(&self) -> WorkspaceV {
        WorkspaceV {
            current_folder: opt_string_view(self.current_folder),
            entries: entries_view(self.entries@),
            selected: opt_usize_view(self.selected),
        }
    }
}

/// A selection always points into the index.
pub open spec fn wf_workspace(w: WorkspaceV) -> bool {
    w.selected matches Some(i) ==> 0 <= i < w.entries.len()
}

/// The state after a rescan: the index is replaced wholesale by the
/// listing's rows; the selection survives exactly when it still points
/// into the new index.
pub open spec fn rescan_spec(w: WorkspaceV, listing: Seq<DirEntryV>) -> WorkspaceV {
    let entries = scan_spec(listing);
    WorkspaceV {
        current_folder: w.current_folder,
        entries: entries,
        selected: match w.selected {
            Some(i) => if 0 <= i < entries.len() {
                Some(i)
            } else {
                None
            },
            None => None,
        },
    }
}

/// Rescanning again with an unchanged listing changes nothing: the index
/// is a function of the listing alone, and a surviving selection survives
/// again.
pub proof fn lemma_rescan_idempotent(w: WorkspaceV, listing: Seq<DirEntryV>)
    ensures
        rescan_spec(rescan_spec(w, listing), listing) == rescan_spec(w, listing),
{
    assert(rescan_spec(rescan_spec(w, listing), listing) =~= rescan_spec(w, listing));
}

/// The index rows a folder listing yields: regular files with an accepted
/// extension, named by their stem, with a best-effort verb hint, sorted by
/// name.
pub fn scan_folder(listing: &Vec<DirEntryData>) -> (entries: Vec<FileEntry>)
    ensures
        entries_view(entries@) == scan_spec(listing_view(listing@)),
{
    let ghost lv = listing_view(listing@);
    let mut acc: Vec<FileEntry> = Vec::new();
    let mut i: usize = 0;
    proof {
        assert(lv.take(0) =~= Seq::<DirEntryV>::empty());
        assert(entries_view(acc@) =~= sort_entries(scan_filter(lv.take(0))));
    }
    while i < listing.len()
        invariant
            i <= listing.len(),
            lv == listing_view(listing@),
            entries_view(acc@) == sort_entries(scan_filter(lv.take(i as int))),
        decreases listing.len() - i,
    {
        let d = &listing[i];
        proof {
            assert(lv[i as int] == listing@[i as int]@);
            assert(lv.take(i as int).push(lv[i as int]) =~= lv.take(i as int + 1));
            lemma_scan_filter_push(lv.take(i as int), lv[i as int]);
        }
        if d.is_file {
            let (stem, eligible) = stem_if_eligible(&d.file_name);
            if eligible {
                let method = crate::record::parse_method_from_file(&d.content);
                let entry = FileEntry { name: stem, path: d.path.clone(), method };
                proof {
                    assert(entry@ =~= entry_of(lv[i as int]));
                    assert(scan_filter(lv.take(i as int + 1)) =~= scan_filter(
                        lv.take(i as int),
                    ).push(entry_of(lv[i as int])));
                }
                insert_entry(&mut acc, entry);
                proof {
                    assert(scan_filter(lv.take(i as int + 1)).drop_last() =~= scan_filter(
                        lv.take(i as int),
                    ));
                    assert(scan_filter(lv.take(i as int + 1)).last() == entry_of(lv[i as int]));
                    assert(entries_view(acc@) =~= sort_entries(
                        scan_filter(lv.take(i as int + 1)),
                    ));
                }
            } else {
                proof {
                    assert(scan_filter(lv.take(i as int + 1)) =~= scan_filter(lv.take(i as int)));
                }
            }
        } else {
            proof {
                assert(scan_filter(lv.take(i as int + 1)) =~= scan_filter(lv.take(i as int)));
            }
        }
        i = i + 1;
    }
    proof {
        assert(lv.take(lv.len() as int) =~= lv);
    }
    acc
}

impl Workspace {
    /// An empty store: no folder, no rows, no selection.
    pub fn new() -> (w: Workspace)
        ensures
            w@.current_folder is None,
            w@.entries.len() == 0,
            w@.selected is None,
            wf_workspace(w@),
    {
        let w = Workspace { current_folder: None, entries: Vec::new(), selected: None };
        proof {
            assert(entries_view(w.entries@) =~= Seq::<FileEntryV>::empty());
        }
        w
    }

    /// Replaces the index with the listing's rows, sorted; the selection
    /// survives only if it still points into the new index.
    pub fn rescan(&mut self, listing: &Vec<DirEntryData>)
        ensures
            final(self)@ == rescan_spec(old(self)@, listing_view(listing@)),
            wf_workspace(final(self)@),
    {
        let ghost lv = listing_view(listing@);
        let acc = scan_folder(listing);
        self.entries = acc;
        let keep: Option<usize> = match self.selected {
            Some(s) => if s < self.entries.len() {
                Some(s)
            } else {
                None
            },
            None => None,
        };
        self.selected = keep;
        proof {
            assert(self@ =~= rescan_spec(old(self)@, lv));
        }
    }

    /// Makes `folder` the current folder and rescans it.
    pub fn open_folder(&mut self, folder: String, listing: &Vec<DirEntryData>)
        ensures
            final(self)@ == rescan_spec(
                WorkspaceV { current_folder: Some(folder@), ..old(self)@ },
                listing_view(listing@),
            ),
            wf_workspace(final(self)@),
    {
        self.current_folder = Some(folder);
        self.rescan(listing);
    }
}

/// Inserts a row before the first row whose name is strictly greater.
fn insert_entry(acc: &mut Vec<FileEntry>, e: FileEntry)
    ensures
        entries_view(final(acc)@) == insert_sorted(entries_view(old(acc)@), e@),
{
    let ghost av = entries_view(acc@);
    let mut p: usize = 0;
    proof {
        lemma_insert_pos_bounds(av, e@.name);
        assert(av.skip(0) =~= av);
    }
    while p < acc.len() && crate::text::str_lex_le(acc[p].name.as_str(), e.name.as_str())
        invariant
            0 <= p <= acc.len(),
            av == entries_view(acc@),
            insert_pos(av, e@.name) == p + insert_pos(av.skip(p as int), e@.name),
            insert_pos(av, e@.name) >= p,
        decreases acc.len() - p,
    {
        proof {
            assert(av.skip(p as int)[0] == av[p as int]);
            assert(av.skip(p as int).drop_first() =~= av.skip(p as int + 1));
            lemma_insert_pos_bounds(av.skip(p as int + 1), e@.name);
        }
        p = p + 1;
    }
    proof {
        if p < acc.len() {
            assert(av.skip(p as int)[0] == av[p as int]);
            assert(insert_pos(av.skip(p as int), e@.name) == 0);
        } else {
            assert(av.skip(p as int).len() == 0);
        }
        assert(insert_pos(av, e@.name) == p);
    }
    acc.insert(p, e);
    proof {
        assert(entries_view(acc@) =~= av.insert(p as int, e@));
    }
}

/// The stem of a file name, and whether its extension is one the scan
/// accepts.
fn stem_if_eligible(file_name: &String) -> (r: (String, bool))
    ensures
        r.0@ == stem_of(file_name@),
        r.1 == eligible_name(file_name@),
{
    let cs = crate::text::str_to_chars(file_name.as_str());
    let n = cs.len();
    let mut j: usize = 0;
    let mut found: bool = false;
    if n > 0 {
        j = n - 1;
        proof {
            assert(last_dot(file_name@) == last_dot_from(file_name@, j as int));
        }
        while j > 0 && cs[j] != '.'
            invariant
                0 <= j < cs.len(),
                cs@ == file_name@,
                last_dot(file_name@) == last_dot_from(file_name@, j as int),
            decreases j,
        {
            j = j - 1;
        }
        found = j > 0 && cs[j] == '.';
        proof {
            if j == 0 {
                assert(last_dot_from(file_name@, 0) == -1);
            }
            assert(found ==> last_dot(file_name@) == j as int);
            assert(!found ==> last_dot(file_name@) == -1);
        }
    } else {
        proof {
            assert(last_dot(file_name@) == -1);
        }
    }
    if !found {
        let stem = crate::text::chars_to_string(&cs);
        proof {
            assert(stem_of(file_name@) =~= file_name@);
        }
        return (stem, false);
    }
    let mut stem_chars: Vec<char> = Vec::new();
    let mut k: usize = 0;
    while k < j
        invariant
            k <= j < cs.len(),
            cs@ == file_name@,
            stem_chars@ == file_name@.take(k as int),
        decreases j - k,
    {
        stem_chars.push(cs[k]);
        k = k + 1;
        proof {
            assert(stem_chars@ =~= file_name@.take(k as int));
        }
    }
    let mut ext_chars: Vec<char> = Vec::new();
    let mut t: usize = j + 1;
    while t < cs.len()
        invariant
            j + 1 <= t <= cs.len(),
            cs@ == file_name@,
            ext_chars@ == file_name@.subrange(j as int + 1, t as int),
        decreases cs.len() - t,
    {
        ext_chars.push(cs[t]);
        t = t + 1;
        proof {
            assert(ext_chars@ =~= file_name@.subrange(j as int + 1, t as int));
        }
    }
    proof {
        assert(ext_chars@ =~= file_name@.skip(j as int + 1));
        assert(ext_of(file_name@) == Some(ext_chars@));
    }
    let e_json = ext_chars.len() == 4 && ext_chars[0] == 'j' && ext_chars[1] == 's'
        && ext_chars[2] == 'o' && ext_chars[3] == 'n';
    let e_yaml = ext_chars.len() == 4 && ext_chars[0] == 'y' && ext_chars[1] == 'a'
        && ext_chars[2] == 'm' && ext_chars[3] == 'l';
    let e_yml = ext_chars.len() == 3 && ext_chars[0] == 'y' && ext_chars[1] == 'm'
        && ext_chars[2] == 'l';
    proof {
        assert(e_json == (ext_chars@ =~= seq!['j', 's', 'o', 'n']));
        assert(e_yaml == (ext_chars@ =~= seq!['y', 'a', 'm', 'l']));
        assert(e_yml == (ext_chars@ =~= seq!['y', 'm', 'l']));
    }
    let stem = crate::text::chars_to_string(&stem_chars);
    (stem, e_json || e_yaml || e_yml)
}

// ===== saving =====

/// The decimal digits of `n`, most significant first.
pub open spec fn dec_digits(n: nat) -> Seq<char>
    decreases n,
{
    if n < 10 {
        seq![crate::json::hex_digit(n)]
    } else {
        dec_digits(n / 10) + seq![crate::json::hex_digit(n % 10)]
    }
}

/// The name a request gets when the user left the name empty: numbered
/// after the count of entries already in the index.
pub open spec fn default_name(count: nat) -> Seq<char> {
    seq!['N', 'e', 'w', ' ', 'R', 'e', 'q', 'u', 'e', 's', 't', ' '] + dec_digits(count + 1)
}

/// A request name as a file name: every non-alphanumeric character becomes
/// a dash.
pub open spec fn sanitize_name(s: Seq<char>) -> Seq<char> {
    Seq::new(
        s.len(),
        |i: int|
            if crate::text::char_is_alphanumeric(s[i]) {
                s[i]
            } else {
                '-'
            },
    )
}

pub open spec fn ext_json() -> Seq<char> {
    seq!['.', 'j', 's', 'o', 'n']
}

pub open spec fn join_path(folder: Seq<char>, file: Seq<char>) -> Seq<char> {
    folder + seq!['/'] + file
}

/// The header rows as the file's mapping: rows with an empty key are
/// excluded, a later duplicate key wins. The enabled flag plays no part
/// here: persistence keeps disabled rows, only dispatch skips them.
pub open spec fn collapse_from(
    rows: Seq<crate::query::KeyValuePairV>,
    acc: Seq<(Seq<char>, Seq<char>)>,
) -> Seq<(Seq<char>, Seq<char>)>
    decreases rows.len(),
{
    if rows.len() == 0 {
        acc
    } else {
        collapse_from(
            rows.drop_first(),
            if rows[0].key.len() == 0 {
                acc
            } else {
                crate::record::upsert(acc, rows[0].key, rows[0].value)
            },
        )
    }
}

pub open spec fn collapse_rows(rows: Seq<crate::query::KeyValuePairV>) -> Seq<
    (Seq<char>, Seq<char>),
> {
    collapse_from(rows, Seq::empty())
}

/// The record a save writes: the effective name, the verb's wire name, the
/// URL and body as composed, and the headers collapsed to a mapping.
pub open spec fn spec_save_record(w: WorkspaceV, r: crate::dispatch::RequestV)
    -> crate::record::SavedRequestV {
    crate::record::SavedRequestV {
        name: if r.name.len() == 0 {
            default_name(w.entries.len())
        } else {
            r.name
        },
        method: r.method.name_seq(),
        url: r.url,
        headers: collapse_rows(r.headers),
        body: r.body,
    }
}

/// The file name a new save synthesizes: the default name is used as it
/// stands; a user-provided name is sanitized.
pub open spec fn spec_save_filename(w: WorkspaceV, r: crate::dispatch::RequestV) -> Seq<char> {
    if r.name.len() == 0 {
        default_name(w.entries.len()) + ext_json()
    } else {
        sanitize_name(r.name) + ext_json()
    }
}

/// Where a save writes: an associated entry's own path, or a fresh path
/// under the current folder.
pub open spec fn spec_save_path(
    w: WorkspaceV,
    r: crate::dispatch::RequestV,
    associated: Option<int>,
) -> Seq<char>
    recommends
        w.current_folder is Some,
        associated matches Some(i) ==> 0 <= i < w.entries.len(),
{
    match associated {
        Some(i) => w.entries[i].path,
        None => join_path(w.current_folder->0, spec_save_filename(w, r)),
    }
}

/// Everything a save writes: the target path and the file's exact text,
/// with the record it encodes.
#[derive(Clone, Debug, PartialEq, Eq)]
pub struct SavePlan {
    pub path: String,
    pub content: String,
    pub record: crate::record::SavedRequest,
}

fn dec_digit_char(n: usize) -> (c: char)
    requires
        n < 10,
    ensures
        c == crate::json::hex_digit(n as nat),
{
    if n == 0 {
        '0'
    } else if n == 1 {
        '1'
    } else if n == 2 {
        '2'
    } else if n == 3 {
        '3'
    } else if n == 4 {
        '4'
    } else if n == 5 {
        '5'
    } else if n == 6 {
        '6'
    } else if n == 7 {
        '7'
    } else if n == 8 {
        '8'
    } else {
        '9'
    }
}

fn push_dec(n: usize, out: &mut Vec<char>)
    ensures
        final(out)@ == old(out)@ + dec_digits(n as nat),
    decreases n,
{
    if n < 10 {
        let d = dec_digit_char(n);
        out.push(d);
        proof {
            assert(out@ =~= old(out)@ + dec_digits(n as nat));
        }
    } else {
        push_dec(n / 10, out);
        let d = dec_digit_char(n % 10);
        out.push(d);
        proof {
            assert(out@ =~= old(out)@ + dec_digits(n as nat));
        }
    }
}

fn default_name_string(count: usize) -> (r: String)
    requires
        count < usize::MAX,
    ensures
        r@ == default_name(count as nat),
{
    let mut out: Vec<char> = crate::text::str_to_chars("New Request ");
    proof {
        reveal_strlit("New Request ");
        assert(out@ =~= seq!['N', 'e', 'w', ' ', 'R', 'e', 'q', 'u', 'e', 's', 't', ' ']);
    }
    push_dec(count + 1, &mut out);
    proof {
        assert(out@ =~= default_name(count as nat));
    }
    crate::text::chars_to_string(&out)
}

fn sanitize_chars(name: &str) -> (out: Vec<char>)
    ensures
        out@ == sanitize_name(name@),
{
    let cs = crate::text::str_to_chars(name);
    let mut out: Vec<char> = Vec::new();
    let mut i: usize = 0;
    while i < cs.len()
        invariant
            i <= cs.len(),
            cs@ == name@,
            out@ =~= sanitize_name(name@).take(i as int),
        decreases cs.len() - i,
    {
        let c = cs[i];
        if crate::text::alphanumeric_char(c) {
            out.push(c);
        } else {
            out.push('-');
        }
        i = i + 1;
        proof {
            assert(out@ =~= sanitize_name(name@).take(i as int));
        }
    }
    proof {
        assert(sanitize_name(name@).take(name@.len() as int) =~= sanitize_name(name@));
    }
    out
}

fn join_path_string(folder: &str, file: &Vec<char>) -> (r: String)
    ensures
        r@ == join_path(folder@, file@),
{
    let mut out = crate::text::str_to_chars(folder);
    out.push('/');
    let mut k: usize = 0;
    while k < file.len()
        invariant
            k <= file.len(),
            out@ == folder@ + seq!['/'] + file@.take(k as int),
        decreases file.len() - k,
    {
        out.push(file[k]);
        k = k + 1;
        proof {
            assert(out@ =~= folder@ + seq!['/'] + file@.take(k as int));
        }
    }
    proof {
        assert(file@.take(file@.len() as int) =~= file@);
        assert(out@ =~= folder@ + seq!['/'] + file@);
    }
    crate::text::chars_to_string(&out)
}

/// The header rows collapsed to the file's mapping.
fn collapse_pairs(rows: &Vec<crate::query::KeyValuePair>) -> (out: Vec<(String, String)>)
    ensures
        crate::record::pairs_view(out@) == collapse_rows(crate::query::rows_view(rows@)),
{
    let ghost rv = crate::query::rows_view(rows@);
    let mut acc: Vec<(String, String)> = Vec::new();
    let mut i: usize = 0;
    proof {
        assert(rv.skip(0) =~= rv);
        assert(crate::record::pairs_view(acc@) =~= Seq::<(Seq<char>, Seq<char>)>::empty());
    }
    while i < rows.len()
        invariant
            i <= rows.len(),
            rv == crate::query::rows_view(rows@),
            collapse_rows(rv) == collapse_from(rv.skip(i as int), crate::record::pairs_view(acc@)),
        decreases rows.len() - i,
    {
        proof {
            assert(rv.skip(i as int)[0] == rv[i as int]);
            assert(rv.skip(i as int).drop_first() =~= rv.skip(i as int + 1));
        }
        if !rows[i].key.as_str().is_empty() {
            acc = crate::record::upsert_pairs(acc, rows[i].key.clone(), rows[i].value.clone());
        }
        i = i + 1;
    }
    proof {
        assert(rv.skip(rv.len() as int).len() == 0);
    }
    acc
}

impl Workspace {
    /// What a save of `req` writes, or nothing when no folder is open.
    /// `associated` names the entry whose file is overwritten; without it a
    /// fresh file name is synthesized from the request's name.
    pub fn plan_save(&self, req: &crate::dispatch::Request, associated: Option<usize>) -> (r:
        Option<SavePlan>)
        requires
            associated matches Some(i) ==> i < self.entries.len(),
            self.entries.len() < usize::MAX,
        ensures
            (r is Some) == (self@.current_folder is Some),
            r matches Some(p) ==> {
                &&& p.record@ == spec_save_record(self@, req@)
                &&& p.content@ == crate::record::record_text(spec_save_record(self@, req@))
                &&& p.path@ == spec_save_path(self@, req@, opt_usize_view(associated))
            },
    {
        match &self.current_folder {
            None => None,
            Some(folder) => {
                let name: String = if req.name.as_str().is_empty() {
                    default_name_string(self.entries.len())
                } else {
                    req.name.clone()
                };
                let headers = collapse_pairs(&req.headers);
                let record = crate::record::SavedRequest {
                    name,
                    method: req.method.as_str().to_owned(),
                    url: req.url.clone(),
                    headers,
                    body: req.body.clone(),
                };
                proof {
                    assert(record@ =~= spec_save_record(self@, req@));
                }
                let content = crate::record::saved_request_to_text(&record);
                let path: String = match associated {
                    Some(i) => self.entries[i].path.clone(),
                    None => {
                        let file: Vec<char> = if req.name.as_str().is_empty() {
                            let mut f = crate::text::str_to_chars(record.name.as_str());
                            f.push('.');
                            f.push('j');
                            f.push('s');
                            f.push('o');
                            f.push('n');
                            proof {
                                assert(f@ =~= default_name(self@.entries.len()) + ext_json());
                            }
                            f
                        } else {
                            let mut f = sanitize_chars(req.name.as_str());
                            f.push('.');
                            f.push('j');
                            f.push('s');
                            f.push('o');
                            f.push('n');
                            proof {
                                assert(f@ =~= sanitize_name(req@.name) + ext_json());
                            }
                            f
                        };
                        join_path_string(folder.as_str(), &file)
                    },
                };
                Some(SavePlan { path, content, record })
            },
        }
    }

    /// After the plan's file was written: rescans and selects the entry at
    /// the written path, or nothing if no entry has it.
    pub fn finish_save(&mut self, listing: &Vec<DirEntryData>, written_path: &str)
        ensures
            final(self)@.current_folder == old(self)@.current_folder,
            final(self)@.entries == scan_spec(listing_view(listing@)),
            final(self)@.selected == find_path(
                scan_spec(listing_view(listing@)),
                written_path@,
            ),
            wf_workspace(final(self)@),
    {
        self.rescan(listing);
        let ghost ev = entries_view(self.entries@);
        let mut i: usize = 0;
        proof {
            assert(ev.skip(0) =~= ev);
            lemma_find_path_bounds(ev, written_path@);
        }
        while i < self.entries.len()
            invariant
                i <= self.entries.len(),
                ev == entries_view(self.entries@),
                ev == scan_spec(listing_view(listing@)),
                self@.current_folder == old(self)@.current_folder,
                find_path(ev, written_path@) == shift_found(
                    find_path(ev.skip(i as int), written_path@),
                    i as int,
                ),
            decreases self.entries.len() - i,
        {
            proof {
                assert(ev.skip(i as int)[0] == ev[i as int]);
                assert(ev.skip(i as int).drop_first() =~= ev.skip(i as int + 1));
            }
            let wp = written_path.to_owned();
            if self.entries[i].path == wp {
                self.selected = Some(i);
                proof {
                    assert(find_path(ev, written_path@) == Some(i as int));
                }
                return ;
            }
            i = i + 1;
        }
        proof {
            assert(ev.skip(ev.len() as int).len() == 0);
            assert(find_path(ev, written_path@) is None);
        }
        self.selected = None;
    }
}

/// The first index whose row has this path.
pub open spec fn find_path(entries: Seq<FileEntryV>, path: Seq<char>) -> Option<int>
    decreases entries.len(),
{
    if entries.len() == 0 {
        None
    } else if entries[0].path == path {
        Some(0)
    } else {
        shift_found(find_path(entries.drop_first(), path), 1)
    }
}

pub open spec fn shift_found(r: Option<int>, by: int) -> Option<int> {
    match r {
        Some(i) => Some(i + by),
        None => None,
    }
}

proof fn lemma_find_path_bounds(entries: Seq<FileEntryV>, path: Seq<char>)
    ensures
        find_path(entries, path) matches Some(i) ==> 0 <= i < entries.len(),
    decreases entries.len(),
{
    if entries.len() > 0 {
        lemma_find_path_bounds(entries.drop_first(), path);
    }
}

// ===== loading =====

/// The editor rows a record's headers become: each pair as an enabled row,
/// and one empty row at the end so the editor always has room for one more.
pub open spec fn rows_of_headers(hs: Seq<(Seq<char>, Seq<char>)>) -> Seq<
    crate::query::KeyValuePairV,
> {
    Seq::new(
        hs.len(),
        |i: int|
            crate::query::KeyValuePairV { key: hs[i].0, value: hs[i].1, enabled: true },
    ).push(
        crate::query::KeyValuePairV {
            key: Seq::empty(),
            value: Seq::empty(),
            enabled: true,
        },
    )
}

/// The request a record loads as: an unrecognized verb name falls back to
/// GET; the composer's parameter rows are its own and start empty.
pub open spec fn loaded_request(rec: crate::record::SavedRequestV) -> crate::dispatch::RequestV {
    crate::dispatch::RequestV {
        name: rec.name,
        method: match crate::method::method_of_name(rec.method) {
            Some(m) => m,
            None => HttpMethod::Get,
        },
        url: rec.url,
        params: Seq::empty(),
        headers: rows_of_headers(rec.headers),
        body: rec.body,
    }
}

/// What loading entry `index` with this file text yields.
pub open spec fn spec_load(w: WorkspaceV, index: int, content: Option<Seq<char>>) -> Option<
    crate::dispatch::RequestV,
> {
    if !(0 <= index < w.entries.len()) {
        None
    } else {
        match content {
            None => None,
            Some(text) => match crate::record::decode_record_text(text) {
                Some(rec) => Some(loaded_request(rec)),
                None => None,
            },
        }
    }
}

impl Workspace {
    /// Loads the file at entry `index`, given its text (`None` when the
    /// file could not be read). On success the entry becomes the selected
    /// one; on failure nothing changes.
    pub fn load_request(&mut self, index: usize, content: &Option<String>) -> (r: Option<
        crate::dispatch::Request,
    >)
        requires
            wf_workspace(old(self)@),
        ensures
            wf_workspace(final(self)@),
            ({
                let outcome = spec_load(old(self)@, index as int, opt_string_view(*content));
                match r {
                    None => outcome is None && final(self)@ == old(self)@,
                    Some(rq) => outcome == Some(rq@) && final(self)@ == WorkspaceV {
                        selected: Some(index as int),
                        ..old(self)@
                    },
                }
            }),
    {
        if index >= self.entries.len() {
            return None;
        }
        let text = match content {
            None => {
                return None;
            },
            Some(text) => text,
        };
        let rec = match crate::record::saved_request_from_text(text.as_str()) {
            None => {
                return None;
            },
            Some(rec) => rec,
        };
        let method = match crate::method::method_from_name(rec.method.as_str()) {
            Some(m) => m,
            None => HttpMethod::Get,
        };
        let mut headers: Vec<crate::query::KeyValuePair> = Vec::new();
        let ghost hsv = crate::record::pairs_view(rec.headers@);
        let mut k: usize = 0;
        while k < rec.headers.len()
            invariant
                k <= rec.headers.len(),
                hsv == crate::record::pairs_view(rec.headers@),
                headers@.len() == k,
                forall|t: int|
                    0 <= t < k ==> (#[trigger] headers@[t])@ == (crate::query::KeyValuePairV {
                        key: hsv[t].0,
                        value: hsv[t].1,
                        enabled: true,
                    }),
            decreases rec.headers.len() - k,
        {
            headers.push(
                crate::query::KeyValuePair {
                    key: rec.headers[k].0.clone(),
                    value: rec.headers[k].1.clone(),
                    enabled: true,
                },
            );
            k = k + 1;
        }
        headers.push(
            crate::query::KeyValuePair {
                key: String::new(),
                value: String::new(),
                enabled: true,
            },
        );
        let request = crate::dispatch::Request {
            name: rec.name,
            method,
            url: rec.url,
            params: Vec::new(),
            headers,
            body: rec.body,
        };
        self.selected = Some(index);
        proof {
            assert(request.headers@.len() == hsv.len() + 1);
            assert(request.headers@[hsv.len() as int]@ == (crate::query::KeyValuePairV {
                key: Seq::empty(),
                value: Seq::empty(),
                enabled: true,
            }));
            assert(crate::query::rows_view(request.headers@) =~= rows_of_headers(hsv));
            assert(crate::query::rows_view(request.params@) =~= Seq::<
                crate::query::KeyValuePairV,
            >::empty());
            assert(request@ =~= loaded_request(
                crate::record::decode_record_text(text@)->0,
            ));
            assert(self@ =~= WorkspaceV { selected: Some(index as int), ..old(self)@ });
        }
        Some(request)
    }
}

// ===== renaming and deleting =====

/// A rename's sanitized name: the percent-encoded form with every percent
/// sign and path separator removed.
pub open spec fn rename_sanitize(s: Seq<char>) -> Seq<char> {
    strip_delims(crate::query::urlencode(s))
}

pub open spec fn strip_delims(s: Seq<char>) -> Seq<char>
    decreases s.len(),
{
    if s.len() == 0 {
        Seq::empty()
    } else {
        (if s[0] == '%' || s[0] == '/' || s[0] == '\\' {
            Seq::empty()
        } else {
            seq![s[0]]
        }) + strip_delims(s.drop_first())
    }
}

/// An entry's file name: its display name, with the written extension
/// appended unless the name already ends in it.
pub open spec fn ends_json(s: Seq<char>) -> bool {
    s.len() >= 5 && s.skip(s.len() - 5) == ext_json()
}

pub open spec fn entry_filename(name: Seq<char>) -> Seq<char> {
    if ends_json(name) {
        name
    } else {
        name + ext_json()
    }
}

/// The two paths a rename moves between.
#[derive(Clone, Debug, PartialEq, Eq)]
pub struct RenamePlan {
    pub old_path: String,
    pub new_path: String,
}

/// What renaming entry `index` to `new_name` does on disk, or nothing when
/// no folder is open, the index is stale, or the sanitized name is empty.
pub open spec fn spec_plan_rename(w: WorkspaceV, index: int, new_name: Seq<char>) -> Option<
    (Seq<char>, Seq<char>),
> {
    if w.current_folder is None || !(0 <= index < w.entries.len()) || rename_sanitize(
        new_name,
    ).len() == 0 {
        None
    } else {
        Some(
            (
                join_path(w.current_folder->0, entry_filename(w.entries[index].name)),
                join_path(w.current_folder->0, rename_sanitize(new_name) + ext_json()),
            ),
        )
    }
}

/// What deleting entry `index` removes — the entry's own file, whatever its
/// extension — or nothing when no folder is open or the index is stale.
pub open spec fn spec_plan_delete(w: WorkspaceV, index: int) -> Option<Seq<char>> {
    if w.current_folder is None || !(0 <= index < w.entries.len()) {
        None
    } else {
        Some(w.entries[index].path)
    }
}

fn strip_delims_exec(s: &Vec<char>) -> (out: Vec<char>)
    ensures
        out@ == strip_delims(s@),
{
    let mut out: Vec<char> = Vec::new();
    let mut i: usize = 0;
    proof {
        assert(s@.skip(0) =~= s@);
        assert(out@ + strip_delims(s@.skip(0)) =~= strip_delims(s@));
    }
    while i < s.len()
        invariant
            i <= s.len(),
            strip_delims(s@) == out@ + strip_delims(s@.skip(i as int)),
        decreases s.len() - i,
    {
        proof {
            assert(s@.skip(i as int)[0] == s@[i as int]);
            assert(s@.skip(i as int).drop_first() =~= s@.skip(i as int + 1));
        }
        let c = s[i];
        if !(c == '%' || c == '/' || c == '\\') {
            out.push(c);
        }
        i = i + 1;
        proof {
            assert(strip_delims(s@) =~= out@ + strip_delims(s@.skip(i as int)));
        }
    }
    proof {
        assert(strip_delims(s@.skip(s@.len() as int)) =~= Seq::<char>::empty());
        assert(out@ =~= strip_delims(s@));
    }
    out
}

fn entry_filename_chars(name: &str) -> (out: Vec<char>)
    ensures
        out@ == entry_filename(name@),
{
    let mut cs = crate::text::str_to_chars(name);
    let n = cs.len();
    let has_ext = n >= 5 && cs[n - 5] == '.' && cs[n - 4] == 'j' && cs[n - 3] == 's' && cs[n - 2]
        == 'o' && cs[n - 1] == 'n';
    proof {
        if n >= 5 {
            assert(name@.skip(name@.len() - 5) =~= seq![
                name@[name@.len() - 5],
                name@[name@.len() - 4],
                name@[name@.len() - 3],
                name@[name@.len() - 2],
                name@[name@.len() - 1],
            ]);
        }
        assert(has_ext == ends_json(name@));
    }
    if !has_ext {
        cs.push('.');
        cs.push('j');
        cs.push('s');
        cs.push('o');
        cs.push('n');
        proof {
            assert(cs@ =~= name@ + ext_json());
        }
    }
    cs
}

impl Workspace {
    /// The rename a request maps to on disk; the index itself is updated by
    /// the rescan that follows the move.
    pub fn plan_rename(&self, index: usize, new_name: &str) -> (r: Option<RenamePlan>)
        ensures
            (r is Some) == (spec_plan_rename(self@, index as int, new_name@) is Some),
            r matches Some(p) ==> spec_plan_rename(self@, index as int, new_name@) == Some(
                (p.old_path@, p.new_path@),
            ),
    {
        let folder = match &self.current_folder {
            None => {
                return None;
            },
            Some(folder) => folder,
        };
        if index >= self.entries.len() {
            return None;
        }
        let encoded = crate::query::urlencoding(new_name);
        let enc_chars = crate::text::str_to_chars(encoded.as_str());
        let sanitized = strip_delims_exec(&enc_chars);
        if sanitized.len() == 0 {
            return None;
        }
        let old_file = entry_filename_chars(self.entries[index].name.as_str());
        let old_path = join_path_string(folder.as_str(), &old_file);
        let mut new_file = sanitized;
        new_file.push('.');
        new_file.push('j');
        new_file.push('s');
        new_file.push('o');
        new_file.push('n');
        proof {
            assert(new_file@ =~= rename_sanitize(new_name@) + ext_json());
        }
        let new_path = join_path_string(folder.as_str(), &new_file);
        Some(RenamePlan { old_path, new_path })
    }

    /// The path a delete removes: the entry's own file.
    pub fn plan_delete(&self, index: usize) -> (r: Option<String>)
        ensures
            (r is Some) == (spec_plan_delete(self@, index as int) is Some),
            r matches Some(p) ==> spec_plan_delete(self@, index as int) == Some(p@),
    {
        if self.current_folder.is_none() {
            return None;
        }
        if index >= self.entries.len() {
            return None;
        }
        Some(self.entries[index].path.clone())
    }

    /// Removes entry `index` after its file was removed, and fixes the
    /// selection: the deleted entry's own selection is cleared, a selection
    /// past it moves down one, an earlier one stands.
    pub fn apply_delete(&mut self, index: usize)
        requires
            wf_workspace(old(self)@),
            index < old(self)@.entries.len(),
        ensures
            wf_workspace(final(self)@),
            final(self)@.current_folder == old(self)@.current_folder,
            final(self)@.entries == old(self)@.entries.remove(index as int),
            final(self)@.selected == (match old(self)@.selected {
                Some(s) => if s == index {
                    None
                } else if s > index {
                    Some(s - 1)
                } else {
                    Some(s)
                },
                None => None::<int>,
            }),
    {
        self.entries.remove(index);
        let keep: Option<usize> = match self.selected {
            Some(s) => if s == index {
                None
            } else if s > index {
                Some(s - 1)
            } else {
                Some(s)
            },
            None => None,
        };
        self.selected = keep;
        proof {
            assert(entries_view(self.entries@) =~= entries_view(old(self).entries@).remove(
                index as int,
            ));
        }
    }

    /// Makes entry `index` the selected one.
    pub fn select(&mut self, index: usize)
        requires
            index < old(self)@.entries.len(),
        ensures
            final(self)@ == (WorkspaceV { selected: Some(index as int), ..old(self)@ }),
            wf_workspace(final(self)@),
    {
        self.selected = Some(index);
        proof {
            assert(self@ =~= WorkspaceV { selected: Some(index as int), ..old(self)@ });
        }
    }

    /// Clears the selection, as saving a copy under a fresh name does
    /// before it resolves the written file.
    pub fn clear_selection(&mut self)
        ensures
            final(self)@ == (WorkspaceV { selected: None, ..old(self)@ }),
            wf_workspace(final(self)@),
    {
        self.selected = None;
        proof {
            assert(self@ =~= WorkspaceV { selected: None, ..old(self)@ });
        }
    }
}

// ===== the save/load round trip =====

proof fn lemma_upsert_keys(hs: Seq<(Seq<char>, Seq<char>)>, k: Seq<char>, v: Seq<char>)
    requires
        crate::record::distinct_keys(hs),
        forall|i: int| 0 <= i < hs.len() ==> (#[trigger] hs[i]).0.len() > 0,
        k.len() > 0,
    ensures
        crate::record::distinct_keys(crate::record::upsert(hs, k, v)),
        forall|i: int|
            0 <= i < crate::record::upsert(hs, k, v).len() ==> (#[trigger] crate::record::upsert(
                hs,
                k,
                v,
            )[i]).0.len() > 0,
        forall|i: int|
            0 <= i < crate::record::upsert(hs, k, v).len() ==> ((#[trigger] crate::record::upsert(
                hs,
                k,
                v,
            )[i]).0 == k || (exists|j: int| 0 <= j < hs.len() && (#[trigger] hs[j]).0 == crate::record::upsert(
                hs,
                k,
                v,
            )[i].0)),
    decreases hs.len(),
{
    let out = crate::record::upsert(hs, k, v);
    if hs.len() == 0 {
        assert(out =~= seq![(k, v)]);
    } else if hs[0].0 == k {
        assert(out =~= seq![(k, v)] + hs.drop_first());
        assert forall|i: int| 0 <= i < out.len() implies ((#[trigger] out[i]).0 == k || (
        exists|j: int| 0 <= j < hs.len() && (#[trigger] hs[j]).0 == out[i].0)) by {
            if i > 0 {
                assert(hs[i] == out[i]);
            }
        }
        assert forall|i: int, j: int| 0 <= i < j < out.len() implies (#[trigger] out[i]).0 != (
        #[trigger] out[j]).0 by {
            if i > 0 {
                assert(out[i] == hs[i] && out[j] == hs[j]);
            } else {
                assert(out[j] == hs[j]);
            }
        }
    } else {
        let tail = hs.drop_first();
        assert forall|i: int, j: int| 0 <= i < j < tail.len() implies (#[trigger] tail[i]).0 != (
        #[trigger] tail[j]).0 by {
            assert(tail[i] == hs[i + 1] && tail[j] == hs[j + 1]);
        }
        assert(forall|i: int| 0 <= i < tail.len() ==> (#[trigger] tail[i]) == hs[i + 1]);
        lemma_upsert_keys(tail, k, v);
        let sub = crate::record::upsert(tail, k, v);
        assert(out =~= seq![hs[0]] + sub);
        assert forall|i: int| 0 <= i < out.len() implies ((#[trigger] out[i]).0 == k || (
        exists|j: int| 0 <= j < hs.len() && (#[trigger] hs[j]).0 == out[i].0)) by {
            if i == 0 {
                assert(hs[0].0 == out[0].0);
            } else {
                assert(out[i] == sub[i - 1]);
                if sub[i - 1].0 != k {
                    let j = choose|j: int|
                        0 <= j < tail.len() && (#[trigger] tail[j]).0 == sub[i - 1].0;
                    assert(hs[j + 1].0 == out[i].0);
                }
            }
        }
        assert forall|i: int, j: int| 0 <= i < j < out.len() implies (#[trigger] out[i]).0 != (
        #[trigger] out[j]).0 by {
            if i > 0 {
                assert(out[i] == sub[i - 1] && out[j] == sub[j - 1]);
            } else {
                assert(out[j] == sub[j - 1]);
                if sub[j - 1].0 == k {
                } else {
                    let t = choose|t: int|
                        0 <= t < tail.len() && (#[trigger] tail[t]).0 == sub[j - 1].0;
                    assert(hs[t + 1].0 == sub[j - 1].0);
                }
            }
        }
    }
}

proof fn lemma_collapse_from_keys(
    rows: Seq<crate::query::KeyValuePairV>,
    acc: Seq<(Seq<char>, Seq<char>)>,
)
    requires
        crate::record::distinct_keys(acc),
        forall|i: int| 0 <= i < acc.len() ==> (#[trigger] acc[i]).0.len() > 0,
    ensures
        crate::record::distinct_keys(collapse_from(rows, acc)),
        forall|i: int|
            0 <= i < collapse_from(rows, acc).len() ==> (#[trigger] collapse_from(
                rows,
                acc,
            )[i]).0.len() > 0,
    decreases rows.len(),
{
    if rows.len() > 0 {
        if rows[0].key.len() == 0 {
            lemma_collapse_from_keys(rows.drop_first(), acc);
        } else {
            lemma_upsert_keys(acc, rows[0].key, rows[0].value);
            lemma_collapse_from_keys(
                rows.drop_first(),
                crate::record::upsert(acc, rows[0].key, rows[0].value),
            );
        }
    }
}

/// The collapsed header mapping has distinct, nonempty keys.
pub proof fn lemma_collapse_rows_keys(rows: Seq<crate::query::KeyValuePairV>)
    ensures
        crate::record::distinct_keys(collapse_rows(rows)),
        forall|i: int|
            0 <= i < collapse_rows(rows).len() ==> (#[trigger] collapse_rows(
                rows,
            )[i]).0.len() > 0,
{
    lemma_collapse_from_keys(rows, Seq::empty());
    assert forall|i: int| 0 <= i < collapse_rows(rows).len() implies (#[trigger] collapse_rows(
        rows,
    )[i]).0.len() > 0 by {
        assert(collapse_rows(rows)[i] == collapse_from(
            rows,
            Seq::<(Seq<char>, Seq<char>)>::empty(),
        )[i]);
    }
}

proof fn lemma_rows_of_headers_collapse_from(hs: Seq<(Seq<char>, Seq<char>)>, k: int)
    requires
        crate::record::distinct_keys(hs),
        forall|i: int| 0 <= i < hs.len() ==> (#[trigger] hs[i]).0.len() > 0,
        0 <= k <= hs.len(),
    ensures
        collapse_from(rows_of_headers(hs).skip(k), hs.take(k)) == hs,
    decreases hs.len() - k,
{
    let rows = rows_of_headers(hs);
    if k == hs.len() {
        assert(rows.skip(k) =~= seq![
            crate::query::KeyValuePairV {
                key: Seq::empty(),
                value: Seq::empty(),
                enabled: true,
            },
        ]);
        assert(rows.skip(k)[0].key.len() == 0);
        assert(rows.skip(k).drop_first().len() == 0);
        assert(hs.take(k) =~= hs);
        assert(collapse_from(rows.skip(k), hs.take(k)) == collapse_from(
            rows.skip(k).drop_first(),
            hs.take(k),
        ));
        assert(collapse_from(rows.skip(k).drop_first(), hs.take(k)) == hs.take(k));
    } else {
        assert(rows.skip(k)[0] == rows[k]);
        assert(rows[k].key == hs[k].0 && rows[k].value == hs[k].1);
        assert(forall|i: int| 0 <= i < k ==> (#[trigger] hs.take(k)[i]).0 != hs[k].0);
        crate::record::lemma_upsert_absent(hs.take(k), hs[k].0, hs[k].1);
        assert(hs.take(k).push((hs[k].0, hs[k].1)) =~= hs.take(k + 1));
        assert(rows.skip(k).drop_first() =~= rows.skip(k + 1));
        lemma_rows_of_headers_collapse_from(hs, k + 1);
        assert(rows.skip(k)[0].key.len() > 0);
        assert(collapse_from(rows.skip(k), hs.take(k)) == collapse_from(
            rows.skip(k + 1),
            crate::record::upsert(hs.take(k), hs[k].0, hs[k].1),
        ));
        assert(collapse_from(rows.skip(k), hs.take(k)) == hs);
    }
}

/// The loaded editor rows collapse back to exactly the saved mapping.
pub proof fn lemma_rows_of_headers_collapse(hs: Seq<(Seq<char>, Seq<char>)>)
    requires
        crate::record::distinct_keys(hs),
        forall|i: int| 0 <= i < hs.len() ==> (#[trigger] hs[i]).0.len() > 0,
    ensures
        collapse_rows(rows_of_headers(hs)) == hs,
{
    lemma_rows_of_headers_collapse_from(hs, 0);
    assert(rows_of_headers(hs).skip(0) =~= rows_of_headers(hs));
    assert(hs.take(0) =~= Seq::<(Seq<char>, Seq<char>)>::empty());
}

/// The save/load round trip: the text a save writes decodes back to the
/// very record saved; the loaded request has the saved verb, URL and body,
/// and its header rows carry the same mapping the save wrote. A request
/// whose name was empty comes back under its synthesized default name.
pub proof fn lemma_save_load_round_trip(w: WorkspaceV, r: crate::dispatch::RequestV)
    ensures
        ({
            let rec = spec_save_record(w, r);
            let loaded = loaded_request(rec);
            &&& crate::record::decode_record_text(crate::record::record_text(rec)) == Some(rec)
            &&& loaded.method == r.method
            &&& loaded.url == r.url
            &&& loaded.body == r.body
            &&& collapse_rows(loaded.headers) == collapse_rows(r.headers)
            &&& loaded.name == (if r.name.len() == 0 {
                default_name(w.entries.len())
            } else {
                r.name
            })
        }),
{
    let rec = spec_save_record(w, r);
    lemma_collapse_rows_keys(r.headers);
    crate::record::lemma_record_text_round_trip(rec);
    crate::method::lemma_method_name_round(r.method);
    lemma_rows_of_headers_collapse(rec.headers);
}


} // verus!
