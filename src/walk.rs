use vstd::prelude::*;
use crate::search::FileMatches;

verus! {

/// What the metadata of a path says it is, as read without following a
/// symbolic link.
#[derive(Debug, Clone, Copy, PartialEq, Eq, Structural)]
pub enum EntryKind {
    File,
    Directory,
    Symlink,
    Other,
}

/// What the walk does with a path.
#[derive(Debug, Clone, Copy, PartialEq, Eq, Structural)]
pub enum WalkStep {
    /// Read the file and search its text.
    SearchFile,
    /// List the directory and walk each entry.
    ListDirectory,
    /// Contribute nothing.
    Skip,
}

pub open spec fn step_for(kind: Option<EntryKind>) -> WalkStep {
    match kind {
        Some(EntryKind::File) => WalkStep::SearchFile,
        Some(EntryKind::Directory) => WalkStep::ListDirectory,
        _ => WalkStep::Skip,
    }
}

/// Decides the walk's next step for a path; `None` stands for metadata that
/// could not be read. A symbolic link is never followed.
pub fn classify(kind: Option<EntryKind>) -> (r: WalkStep)
    ensures
        r == step_for(kind),
        kind == Some(EntryKind::Symlink) ==> r == WalkStep::Skip,
        kind.is_none() ==> r == WalkStep::Skip,
{
    match kind {
        Some(EntryKind::File) => WalkStep::SearchFile,
        Some(EntryKind::Directory) => WalkStep::ListDirectory,
        _ => WalkStep::Skip,
    }
}

/// The results of a directory's entries, one after another, in the order
/// of the entries.
pub open spec fn joined(children: Seq<Option<Vec<FileMatches>>>) -> Seq<FileMatches>
    decreases children.len(),
{
    if children.len() == 0 {
        Seq::empty()
    } else {
        let rest = joined(children.drop_last());
        match children.last() {
            Some(v) => rest + v@,
            None => rest,
        }
    }
}

/// Joins the results of a directory's entries: all their file results in
/// order, or nothing when no entry found a match.
pub fn collect_dir(children: Vec<Option<Vec<FileMatches>>>) -> (r: Option<Vec<FileMatches>>)
    ensures
        r is None <==> joined(children@).len() == 0,
        r matches Some(v) ==> v@ == joined(children@),
{
    let ghost all = children@;
    let mut pending = children;
    let mut reversed: Vec<Option<Vec<FileMatches>>> = Vec::new();
    while pending.len() > 0
        invariant
            all == pending@ + reversed@.reverse(),
        decreases pending@.len(),
    {
        let ghost p = pending@;
        let ghost q = reversed@;
        let c = pending.pop().unwrap();
        reversed.push(c);
        assert(pending@ + reversed@.reverse() =~= p.drop_last() + (q.reverse()).insert(0, c));
        assert(p =~= p.drop_last().push(c));
        assert(p.drop_last().push(c) + q.reverse() =~= p.drop_last() + q.reverse().insert(0, c));
    }
    assert(reversed@.reverse() =~= all);
    let mut result: Vec<FileMatches> = Vec::new();
    let ghost n = all.len();
    assert forall|k: int| 0 <= k < reversed@.len() implies reversed@[k] == all[n - 1 - k] by {
        assert(reversed@.reverse()[n - 1 - k] == reversed@[k]);
    }
    assert(all.subrange(0, 0) =~= Seq::<Option<Vec<FileMatches>>>::empty());
    while reversed.len() > 0
        invariant
            reversed@.len() <= n,
            n == all.len(),
            forall|k: int| 0 <= k < reversed@.len() ==> reversed@[k] == all[n - 1 - k],
            result@ == joined(all.subrange(0, n - reversed@.len())),
        decreases reversed@.len(),
    {
        let ghost before = reversed@;
        let c = reversed.pop().unwrap();
        let ghost done = n - before.len();
        proof {
            assert(c == all[done]);
            assert(all.subrange(0, done + 1).drop_last() =~= all.subrange(0, done));
        }
        match c {
            Some(mut v) => {
                result.append(&mut v);
            },
            None => {},
        }
    }
    assert(all.subrange(0, n as int) =~= all);
    if result.len() == 0 {
        None
    } else {
        Some(result)
    }
}

/// A directory whose entries all came back empty-handed, because they could
/// not be read, were skipped, or held no match, contributes nothing.
pub proof fn lemma_empty_entries_contribute_nothing(children: Seq<Option<Vec<FileMatches>>>)
    requires
        forall|k: int| 0 <= k < children.len() ==> (#[trigger] children[k]) is None,
    ensures
        joined(children).len() == 0,
    decreases children.len(),
{
    if children.len() > 0 {
        lemma_empty_entries_contribute_nothing(children.drop_last());
    }
}

} // verus!
