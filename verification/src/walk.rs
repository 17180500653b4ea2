//! The traversal engine: walks a directory tree, scans every regular
//! file line by line with the line scanner, and sums the per-line hits
//! into a total count, collecting one notice per hit on the way.
//!
//! The tree is held in memory as an [`Entry`] value; reading it from a
//! real file system is the caller's business. Entries that are neither
//! regular files nor directories contribute nothing. Paths are built by
//! joining the entry names with `/`, rooted at the path handed to the
//! top-level call, and serve only as labels in the notices.

use vstd::prelude::*;
use crate::scan::{line_hits, line_notices, scan_line, Notice, NoticeModel};

verus! {

/// A file is scannable only if each of its lines fits the machine: the
/// line's character count must leave room for a one-past-the-end column
/// number.
pub open spec fn file_wf(lines: Seq<Seq<char>>) -> bool {
    forall|i: int| 0 <= i < lines.len() ==> (#[trigger] lines[i]).len() < usize::MAX
}

/// The number of hit lines in a file, the sum over its lines of
/// [`line_hits`].
pub open spec fn file_count(lines: Seq<Seq<char>>) -> nat
    decreases lines.len(),
{
    if lines.len() == 0 {
        0
    } else {
        file_count(lines.drop_last()) + line_hits(lines.last())
    }
}

/// The notices owed for a file at `path`: the notices of its lines, in
/// line order.
pub open spec fn file_notices(path: Seq<char>, lines: Seq<Seq<char>>) -> Seq<NoticeModel>
    decreases lines.len(),
{
    if lines.len() == 0 {
        Seq::empty()
    } else {
        file_notices(path, lines.drop_last()) + line_notices(
            path,
            lines.len() - 1,
            lines.last(),
        )
    }
}

/// A file yields at most one hit per line.
pub proof fn lemma_file_count_le_len(lines: Seq<Seq<char>>)
    ensures
        file_count(lines) <= lines.len(),
    decreases lines.len(),
{
    if lines.len() > 0 {
        lemma_file_count_le_len(lines.drop_last());
    }
}

/// A file yields exactly one notice per counted hit.
pub proof fn lemma_file_notices_len(path: Seq<char>, lines: Seq<Seq<char>>)
    ensures
        file_notices(path, lines).len() == file_count(lines),
    decreases lines.len(),
{
    if lines.len() > 0 {
        lemma_file_notices_len(path, lines.drop_last());
    }
}

/// Scans the lines of one file, reported under the path `path`. Returns
/// the number of lines that hold the marker token, together with one
/// notice per hit, in line order.
pub fn process_file(path: &str, lines: &Vec<String>) -> (r: (usize, Vec<Notice>))
    requires
        file_wf(lines.deep_view()),
    ensures
        r.0 == file_count(lines.deep_view()),
        r.1.deep_view() == file_notices(path@, lines.deep_view()),
        r.1@.len() == r.0,
{
    let ghost dv = lines.deep_view();
    proof {
        assert(dv.len() == lines@.len());
    }
    let mut count: usize = 0;
    let mut notices: Vec<Notice> = Vec::new();
    let mut i: usize = 0;
    proof {
        assert(dv.take(0) =~= Seq::<Seq<char>>::empty());
        assert(notices.deep_view() =~= file_notices(path@, dv.take(0)));
    }
    while i < lines.len()
        invariant
            dv == lines.deep_view(),
            dv.len() == lines@.len(),
            file_wf(dv),
            0 <= i <= lines@.len(),
            count == file_count(dv.take(i as int)),
            notices.deep_view() == file_notices(path@, dv.take(i as int)),
        decreases lines@.len() - i,
    {
        proof {
            lemma_file_count_le_len(dv.take(i as int));
            assert(dv.take(i as int).len() == i);
            assert(dv.take(i + 1).drop_last() =~= dv.take(i as int));
            assert(dv.take(i + 1).last() == dv[i as int]);
            assert(dv[i as int] == lines@[i as int]@);
        }
        let line: &String = &lines[i];
        let ghost old_notices = notices.deep_view();
        match scan_line(path, i, line.as_str()) {
            Some(n) => {
                count = count + 1;
                notices.push(n);
                proof {
                    assert(notices.deep_view() =~= old_notices + seq![n@]);
                    assert(line_notices(path@, i as int, dv[i as int]) =~= seq![n@]);
                }
            },
            None => {
                proof {
                    assert(line_notices(path@, i as int, dv[i as int]) =~= Seq::<
                        NoticeModel,
                    >::empty());
                    assert(notices.deep_view() =~= old_notices + line_notices(
                        path@,
                        i as int,
                        dv[i as int],
                    ));
                }
            },
        }
        i = i + 1;
    }
    proof {
        assert(dv.take(lines@.len() as int) =~= dv);
        lemma_file_notices_len(path@, dv);
    }
    (count, notices)
}

/// One entry of a directory tree, as the traversal sees it: a regular
/// file with its lines, a subdirectory with its entries, or anything
/// else (a symlink, a device, an entry whose type is unknown), which is
/// skipped.
pub enum Entry {
    File { name: String, lines: Vec<String> },
    Dir { name: String, entries: Vec<Entry> },
    Other { name: String },
}

/// The number of hit lines under one entry.
pub open spec fn entry_count(e: Entry) -> nat
    decreases e,
{
    match e {
        Entry::File { lines, .. } => file_count(lines.deep_view()),
        Entry::Dir { entries, .. } => dir_count(entries@),
        Entry::Other { .. } => 0,
    }
}

/// The number of hit lines under a directory: the sum of the counts of
/// its direct children.
pub open spec fn dir_count(s: Seq<Entry>) -> nat
    decreases s,
{
    if s.len() == 0 {
        0
    } else {
        dir_count(s.drop_last()) + entry_count(s.last())
    }
}

/// Every file under the entry satisfies [`file_wf`].
pub open spec fn entry_wf(e: Entry) -> bool
    decreases e,
{
    match e {
        Entry::File { lines, .. } => file_wf(lines.deep_view()),
        Entry::Dir { entries, .. } => dir_wf(entries@),
        Entry::Other { .. } => true,
    }
}

/// Every file under the directory satisfies [`file_wf`].
pub open spec fn dir_wf(s: Seq<Entry>) -> bool
    decreases s,
{
    forall|i: int| 0 <= i < s.len() ==> entry_wf(#[trigger] s[i])
}

/// Joining a relative path and an entry name with a slash; an empty
/// path stands for the root of the walk and adds no separator.
pub open spec fn join(path: Seq<char>, name: Seq<char>) -> Seq<char> {
    if path.len() == 0 {
        name
    } else {
        path + seq!['/'] + name
    }
}

/// The notices owed under one entry, reported under paths rooted at
/// `path`.
pub open spec fn entry_notices(path: Seq<char>, e: Entry) -> Seq<NoticeModel>
    decreases e,
{
    match e {
        Entry::File { name, lines } => file_notices(join(path, name@), lines.deep_view()),
        Entry::Dir { name, entries } => dir_notices(join(path, name@), entries@),
        Entry::Other { .. } => Seq::empty(),
    }
}

/// The notices owed under a directory at `path`: the notices of its
/// children, concatenated in child order.
pub open spec fn dir_notices(path: Seq<char>, s: Seq<Entry>) -> Seq<NoticeModel>
    decreases s,
{
    if s.len() == 0 {
        Seq::empty()
    } else {
        dir_notices(path, s.drop_last()) + entry_notices(path, s.last())
    }
}

/// An empty directory counts zero hits.
pub proof fn lemma_empty_dir_count()
    ensures
        dir_count(Seq::<Entry>::empty()) == 0,
{
}

proof fn lemma_dir_count_take_step(s: Seq<Entry>, i: int)
    requires
        0 <= i < s.len(),
    ensures
        dir_count(s.take(i + 1)) == dir_count(s.take(i)) + entry_count(s[i]),
{
    assert(s.take(i + 1).drop_last() =~= s.take(i));
    assert(s.take(i + 1).last() == s[i]);
}

proof fn lemma_dir_notices_take_step(path: Seq<char>, s: Seq<Entry>, i: int)
    requires
        0 <= i < s.len(),
    ensures
        dir_notices(path, s.take(i + 1)) == dir_notices(path, s.take(i)) + entry_notices(
            path,
            s[i],
        ),
{
    assert(s.take(i + 1).drop_last() =~= s.take(i));
    assert(s.take(i + 1).last() == s[i]);
}

proof fn lemma_dir_count_take_le(s: Seq<Entry>, i: int)
    requires
        0 <= i <= s.len(),
    ensures
        dir_count(s.take(i)) <= dir_count(s),
    decreases s.len() - i,
{
    if i == s.len() {
        assert(s.take(i) =~= s);
    } else {
        lemma_dir_count_take_step(s, i);
        lemma_dir_count_take_le(s, i + 1);
    }
}

/// The count is additive over any split of a directory's children: the
/// children before position `i` and the children from position `i` on
/// together count exactly what the whole directory counts.
pub proof fn lemma_dir_count_split(s: Seq<Entry>, i: int)
    requires
        0 <= i <= s.len(),
    ensures
        dir_count(s) == dir_count(s.take(i)) + dir_count(s.skip(i)),
    decreases s.len(),
{
    if i == s.len() {
        assert(s.take(i) =~= s);
        assert(s.skip(i) =~= Seq::<Entry>::empty());
    } else {
        let t = s.drop_last();
        lemma_dir_count_split(t, i);
        assert(t.take(i) =~= s.take(i));
        assert(s.skip(i).drop_last() =~= t.skip(i));
        assert(s.skip(i).last() == s.last());
    }
}

/// A walk yields exactly one notice per counted hit.
pub proof fn lemma_entry_notices_len(path: Seq<char>, e: Entry)
    ensures
        entry_notices(path, e).len() == entry_count(e),
    decreases e,
{
    match e {
        Entry::File { name, lines } => {
            lemma_file_notices_len(join(path, name@), lines.deep_view());
        },
        Entry::Dir { name, entries } => {
            lemma_dir_notices_len(join(path, name@), entries@);
        },
        Entry::Other { .. } => {},
    }
}

/// A walk yields exactly one notice per counted hit.
pub proof fn lemma_dir_notices_len(path: Seq<char>, s: Seq<Entry>)
    ensures
        dir_notices(path, s).len() == dir_count(s),
    decreases s,
{
    if s.len() > 0 {
        lemma_dir_notices_len(path, s.drop_last());
        lemma_entry_notices_len(path, s.last());
    }
}

/// Joins a relative path and an entry name with a slash.
fn join_path(path: &str, name: &str) -> (r: String)
    ensures
        r@ == join(path@, name@),
{
    if path.unicode_len() == 0 {
        name.to_owned()
    } else {
        let mut s: String = path.to_owned();
        s.append("/");
        s.append(name);
        proof {
            reveal_strlit("/");
            assert(("/")@ =~= seq!['/']);
            assert(s@ =~= join(path@, name@));
        }
        s
    }
}

/// Walks a directory, given as the list of its entries, reported under
/// the path `path`. Scans every regular file, recurses into every
/// subdirectory, skips everything else, and returns the total number of
/// hit lines together with one notice per hit, in visitation order.
pub fn process_dir(path: &str, entries: &Vec<Entry>) -> (r: (usize, Vec<Notice>))
    requires
        dir_wf(entries@),
        dir_count(entries@) <= usize::MAX,
    ensures
        r.0 == dir_count(entries@),
        r.1.deep_view() == dir_notices(path@, entries@),
        r.1@.len() == r.0,
    decreases entries@,
{
    let mut count: usize = 0;
    let mut notices: Vec<Notice> = Vec::new();
    let mut i: usize = 0;
    proof {
        assert(entries@.take(0) =~= Seq::<Entry>::empty());
        assert(notices.deep_view() =~= dir_notices(path@, entries@.take(0)));
    }
    while i < entries.len()
        invariant
            dir_wf(entries@),
            dir_count(entries@) <= usize::MAX,
            0 <= i <= entries@.len(),
            count == dir_count(entries@.take(i as int)),
            notices.deep_view() == dir_notices(path@, entries@.take(i as int)),
        decreases entries@.len() - i,
    {
        proof {
            assert(entry_wf(entries@[i as int]));
            lemma_dir_count_take_step(entries@, i as int);
            lemma_dir_count_take_le(entries@, i + 1);
            lemma_dir_notices_take_step(path@, entries@, i as int);
        }
        let e: &Entry = &entries[i];
        let ghost old_nv = notices.deep_view();
        match e {
            Entry::File { name, lines } => {
                let p = join_path(path, name.as_str());
                let (c, mut ns) = process_file(p.as_str(), lines);
                let ghost ns_dv = ns.deep_view();
                count = count + c;
                notices.append(&mut ns);
                proof {
                    assert(notices.deep_view() =~= old_nv + ns_dv);
                    assert(entry_notices(path@, entries@[i as int]) == ns_dv);
                    assert(notices.deep_view() =~= dir_notices(path@, entries@.take(i + 1)));
                }
            },
            Entry::Dir { name, entries: sub } => {
                let p = join_path(path, name.as_str());
                let (c, mut ns) = process_dir(p.as_str(), sub);
                let ghost ns_dv = ns.deep_view();
                count = count + c;
                notices.append(&mut ns);
                proof {
                    assert(notices.deep_view() =~= old_nv + ns_dv);
                    assert(entry_notices(path@, entries@[i as int]) == ns_dv);
                    assert(notices.deep_view() =~= dir_notices(path@, entries@.take(i + 1)));
                }
            },
            Entry::Other { .. } => {
                proof {
                    assert(entry_notices(path@, entries@[i as int]) =~= Seq::<
                        NoticeModel,
                    >::empty());
                    assert(notices.deep_view() =~= dir_notices(path@, entries@.take(i + 1)));
                }
            },
        }
        i = i + 1;
    }
    proof {
        assert(entries@.take(entries@.len() as int) =~= entries@);
        lemma_dir_notices_len(path@, entries@);
    }
    (count, notices)
}

} // verus!
