//! From what was found under the sources to the list of fortune files.
//!
//! Every regular file under a source is a candidate, but for those whose
//! extension marks a compiled index. The candidates come out in the order of
//! their paths, each path once.
use vstd::prelude::*;
use vstd::string::StrSliceExecFns;
use vstd::string::StringExecFns;
use vstd::utf8::encode_utf8;
use crate::error::FortuneError;
use crate::order::compare_paths;
use crate::order::lemma_before_transitive;
use crate::order::lemma_sorted_no_duplicates;
use crate::order::path_before;
use crate::order::strictly_sorted;
use crate::order::Rank;
use crate::scan::lemma_stop_index;
use crate::scan::stop_index;

verus! {

/// One thing found under a source: its path, the last component of that path,
/// and whether it is a regular file.
#[derive(Debug)]
pub struct Entry {
    pub path: String,
    pub name: String,
    pub is_file: bool,
}

/// A source, and what was found there: the source itself where it is a file,
/// everything at any depth below it where it is a directory, or the reason why
/// there is no such path.
#[derive(Debug)]
pub struct Listing {
    pub root: String,
    pub found: Result<Vec<Entry>, String>,
}

/// Where the last dot of `name` stands; -1 where it has none.
pub open spec fn last_dot(name: Seq<char>) -> int
    decreases name.len(),
{
    if name.len() == 0 {
        -1
    } else if name.last() == '.' {
        name.len() - 1
    } else {
        last_dot(name.drop_last())
    }
}

/// The extension of a file name: what follows its last dot. A name without a
/// dot has none, nor has one whose only dot leads it, nor has the name of the
/// parent directory.
pub open spec fn extension_of(name: Seq<char>) -> Option<Seq<char>> {
    let dot = last_dot(name);
    if dot <= 0 || name == seq!['.', '.'] {
        None
    } else {
        Some(name.subrange(dot + 1, name.len() as int))
    }
}

/// The extension of a compiled index.
pub open spec fn reserved_extension() -> Seq<char> {
    seq!['d', 'a', 't']
}

/// True of the name of a compiled index.
pub open spec fn has_reserved_extension(name: Seq<char>) -> bool {
    extension_of(name) == Some(reserved_extension())
}

/// True of what becomes a candidate.
pub open spec fn is_candidate(entry: Entry) -> bool {
    entry.is_file && !has_reserved_extension(entry.name@)
}

/// The paths of the candidates among `entries`, in their order.
pub open spec fn candidate_paths(entries: Seq<Entry>) -> Seq<Seq<char>> {
    entries.filter(|entry: Entry| is_candidate(entry)).map_values(|entry: Entry| entry.path@)
}

/// The paths of the candidates found at one source.
pub open spec fn listing_candidates(listing: Listing) -> Seq<Seq<char>> {
    match listing.found {
        Ok(entries) => candidate_paths(entries@),
        Err(_) => Seq::empty(),
    }
}

/// The paths of the candidates found at all the sources, source after source.
/// A path stands here as often as it was found.
pub open spec fn all_candidates(listings: Seq<Listing>) -> Seq<Seq<char>>
    decreases listings.len(),
{
    if listings.len() == 0 {
        Seq::empty()
    } else {
        all_candidates(listings.drop_last()) + listing_candidates(listings.last())
    }
}

/// How many sources stand before the first that does not exist: all of them
/// where each exists.
pub open spec fn found_len(listings: Seq<Listing>) -> nat {
    stop_index(listings, |listing: Listing| listing.found is Err)
}

/// The text of each path.
pub open spec fn path_views(paths: Seq<String>) -> Seq<Seq<char>> {
    paths.map_values(|path: String| path@)
}

/// The last dot is a dot, and no dot follows it.
pub proof fn lemma_last_dot(name: Seq<char>)
    ensures
        -1 <= last_dot(name) < name.len(),
        last_dot(name) >= 0 ==> name[last_dot(name)] == '.',
        forall|i: int| last_dot(name) < i < name.len() ==> name[i] != '.',
    decreases name.len(),
{
    if name.len() > 0 && name.last() != '.' {
        let shorter = name.drop_last();
        lemma_last_dot(shorter);
        assert forall|i: int| last_dot(name) < i < name.len() implies name[i] != '.' by {
            if i < shorter.len() {
                assert(shorter[i] == name[i]);
            }
        }
    }
}

/// Tells whether `name` has the extension of a compiled index: whether it ends
/// in a dot and `dat`, with something before the dot.
pub fn is_reserved(name: &str) -> (reserved: bool)
    ensures
        reserved == has_reserved_extension(name@),
{
    let n: usize = name.unicode_len();
    proof {
        lemma_last_dot(name@);
    }
    if n <= 4 {
        proof {
            if has_reserved_extension(name@) {
                let extension = name@.subrange(last_dot(name@) + 1, n as int);
                assert(extension.len() == 3);
            }
        }
        return false;
    }
    let found = name.get_char(n - 4) == '.' && name.get_char(n - 3) == 'd' && name.get_char(n - 2)
        == 'a' && name.get_char(n - 1) == 't';
    proof {
        let dot = last_dot(name@);
        if found {
            if dot < n - 4 {
                assert(name@[n - 4] != '.');
            }
            assert(dot == n - 4);
            assert(name@.subrange(dot + 1, n as int) == reserved_extension());
        } else if has_reserved_extension(name@) {
            let extension = name@.subrange(dot + 1, n as int);
            assert(extension.len() == 3);
            assert(extension[0] == name@[n - 3]);
            assert(extension[1] == name@[n - 2]);
            assert(extension[2] == name@[n - 1]);
        }
    }
    found
}

/// Puts `path` at its place among `paths`, unless it stands there already.
fn insert_sorted(paths: &mut Vec<String>, path: &str)
    requires
        strictly_sorted(path_views(old(paths)@)),
    ensures
        strictly_sorted(path_views(final(paths)@)),
        path_views(final(paths)@).to_set() == path_views(old(paths)@).to_set().insert(path@),
        path_views(old(paths)@).contains(path@) ==> final(paths)@ == old(paths)@,
        !path_views(old(paths)@).contains(path@) ==> final(paths)@.len() == old(paths)@.len() + 1,
{
    let ghost before = path_views(paths@);
    let mut lo: usize = 0;
    let mut hi: usize = paths.len();
    while lo < hi
        invariant
            lo <= hi <= paths@.len(),
            paths@ == old(paths)@,
            before == path_views(paths@),
            strictly_sorted(before),
            forall|j: int| 0 <= j < lo ==> path_before(#[trigger] before[j], path@),
            forall|j: int| hi <= j < before.len() ==> path_before(path@, #[trigger] before[j]),
        decreases hi - lo,
    {
        let mid: usize = lo + (hi - lo) / 2;
        assert(before[mid as int] == paths@[mid as int]@);
        match compare_paths(paths[mid].as_str(), path) {
            Rank::Before => {
                assert forall|j: int| 0 <= j < mid + 1 implies path_before(
                    #[trigger] before[j],
                    path@,
                ) by {
                    if j < mid {
                        lemma_before_transitive(
                            encode_utf8(before[j]),
                            encode_utf8(before[mid as int]),
                            encode_utf8(path@),
                        );
                    }
                }
                lo = mid + 1;
            },
            Rank::After => {
                assert forall|j: int| mid <= j < before.len() implies path_before(
                    path@,
                    #[trigger] before[j],
                ) by {
                    if j > mid {
                        lemma_before_transitive(
                            encode_utf8(path@),
                            encode_utf8(before[mid as int]),
                            encode_utf8(before[j]),
                        );
                    }
                }
                hi = mid;
            },
            Rank::Same => {
                assert(before.contains(path@));
                assert(before.to_set().insert(path@) =~= before.to_set());
                return ;
            },
        }
    }
    proof {
        crate::order::lemma_before_irreflexive(encode_utf8(path@));
        assert(!before.contains(path@)) by {
            if before.contains(path@) {
                let j = choose|j: int| 0 <= j < before.len() && before[j] == path@;
                assert(path_before(before[j], path@) || path_before(path@, before[j]));
            }
        }
    }
    paths.insert(lo, String::from_str(path));
    proof {
        let after = path_views(paths@);
        assert(after == before.insert(lo as int, path@));
        assert forall|i: int, j: int| 0 <= i < j < after.len() implies path_before(
            after[i],
            after[j],
        ) by {
            if i < lo && j > lo {
                assert(path_before(before[i], before[j - 1]));
            } else if i > lo {
                assert(path_before(before[i - 1], before[j - 1]));
            } else if j < lo {
                assert(path_before(before[i], before[j]));
            }
        }
        assert(after.to_set() =~= before.to_set().insert(path@)) by {
            assert forall|p: Seq<char>| after.contains(p) <==> before.contains(p) || p
                == path@ by {
                if after.contains(p) {
                    let j = choose|j: int| 0 <= j < after.len() && after[j] == p;
                    if j < lo {
                        assert(before[j] == p);
                    } else if j > lo {
                        assert(before[j - 1] == p);
                    }
                }
                if before.contains(p) {
                    let j = choose|j: int| 0 <= j < before.len() && before[j] == p;
                    if j < lo {
                        assert(after[j] == p);
                    } else {
                        assert(after[j + 1] == p);
                    }
                }
                if p == path@ {
                    assert(after[lo as int] == p);
                }
            }
        }
    }
}

/// Among no entries there are no candidates.
proof fn lemma_candidates_of_none()
    ensures
        candidate_paths(Seq::empty()) == Seq::<Seq<char>>::empty(),
{
    Seq::<Entry>::empty().lemma_filter_len(|entry: Entry| is_candidate(entry));
}

/// One more entry adds its path to the candidates where it is one, and
/// nothing where it is none.
proof fn lemma_candidates_push(entries: Seq<Entry>, entry: Entry)
    ensures
        candidate_paths(entries.push(entry)) == if is_candidate(entry) {
            candidate_paths(entries).push(entry.path@)
        } else {
            candidate_paths(entries)
        },
{
    entries.lemma_filter_push(entry, |entry: Entry| is_candidate(entry));
}

/// Puts the candidates among `entries` at their places among `paths`.
fn insert_candidates(paths: &mut Vec<String>, entries: &Vec<Entry>)
    requires
        strictly_sorted(path_views(old(paths)@)),
    ensures
        strictly_sorted(path_views(final(paths)@)),
        path_views(final(paths)@).to_set() == path_views(old(paths)@).to_set().union(
            candidate_paths(entries@).to_set(),
        ),
{
    let n: usize = entries.len();
    let mut i: usize = 0;
    proof {
        lemma_candidates_of_none();
        assert(entries@.subrange(0, 0) == Seq::<Entry>::empty());
        assert(Seq::<Seq<char>>::empty().to_set() =~= Set::<Seq<char>>::empty());
    }
    assert(path_views(paths@).to_set().union(Set::<Seq<char>>::empty()) =~= path_views(
        paths@,
    ).to_set());
    while i < n
        invariant
            i <= n,
            n == entries@.len(),
            strictly_sorted(path_views(paths@)),
            path_views(paths@).to_set() == path_views(old(paths)@).to_set().union(
                candidate_paths(entries@.subrange(0, i as int)).to_set(),
            ),
        decreases n - i,
    {
        let entry = &entries[i];
        let ghost shorter = entries@.subrange(0, i as int);
        let ghost longer = entries@.subrange(0, i + 1);
        proof {
            assert(longer == shorter.push(*entry));
            lemma_candidates_push(shorter, *entry);
        }
        if entry.is_file && !is_reserved(entry.name.as_str()) {
            let ghost earlier = path_views(paths@).to_set();
            insert_sorted(paths, entry.path.as_str());
            proof {
                let given = path_views(old(paths)@).to_set();
                candidate_paths(shorter).lemma_push_to_set_commute(entry.path@);
                assert(earlier.insert(entry.path@) =~= given.union(
                    candidate_paths(longer).to_set(),
                ));
            }
        }
        i = i + 1;
    }
    assert(entries@.subrange(0, n as int) == entries@);
}

fn not_found(root: &String, cause: &String) -> (e: FortuneError)
    ensures
        e matches FortuneError::NotFound { path, cause: c } && path@ == root@ && c@ == cause@,
{
    FortuneError::NotFound { path: root.clone(), cause: cause.clone() }
}

/// Makes the list of fortune files out of what was found at each source.
///
/// The first source that does not exist ends the work: the error names that
/// source and the reason, and no list is returned. Where every source exists,
/// the list holds the path of every candidate found at any of them, in the
/// order of the paths, and each path once, however often it was found.
pub fn find_files(listings: &[Listing]) -> (r: Result<Vec<String>, FortuneError>)
    ensures
        match r {
            Ok(paths) => {
                &&& found_len(listings@) == listings@.len()
                &&& strictly_sorted(path_views(paths@))
                &&& path_views(paths@).to_set() == all_candidates(listings@).to_set()
            },
            Err(e) => {
                let k = found_len(listings@) as int;
                &&& k < listings@.len()
                &&& e matches FortuneError::NotFound { path, cause }
                &&& path@ == listings@[k].root@
                &&& listings@[k].found matches Err(reason)
                &&& cause@ == reason@
            },
        },
{
    let n: usize = listings.len();
    let mut paths: Vec<String> = Vec::new();
    let mut i: usize = 0;
    assert(path_views(paths@).to_set() =~= all_candidates(listings@.subrange(0, 0)).to_set());
    while i < n
        invariant
            i <= n,
            n == listings@.len(),
            forall|j: int| 0 <= j < i ==> (#[trigger] listings@[j]).found is Ok,
            strictly_sorted(path_views(paths@)),
            path_views(paths@).to_set() == all_candidates(listings@.subrange(0, i as int)).to_set(),
        decreases n - i,
    {
        let listing = &listings[i];
        match &listing.found {
            Err(cause) => {
                proof {
                    lemma_stop_index(listings@, |listing: Listing| listing.found is Err, i as int);
                }
                return Err(not_found(&listing.root, cause));
            },
            Ok(entries) => {
                proof {
                    let shorter = listings@.subrange(0, i as int);
                    let longer = listings@.subrange(0, i + 1);
                    assert(longer.drop_last() == shorter);
                    assert(longer.last() == listings@[i as int]);
                    vstd::seq_lib::seq_to_set_distributes_over_add(
                        all_candidates(shorter),
                        candidate_paths(entries@),
                    );
                }
                insert_candidates(&mut paths, entries);
            },
        }
        i = i + 1;
    }
    proof {
        lemma_stop_index(listings@, |listing: Listing| listing.found is Err, n as int);
        assert(listings@.subrange(0, n as int) == listings@);
    }
    Ok(paths)
}

/// However often a file was found, and at however many sources, the list
/// names it once.
pub proof fn lemma_found_once(listings: Seq<Listing>, paths: Seq<Seq<char>>, path: Seq<char>)
    requires
        strictly_sorted(paths),
        paths.to_set() == all_candidates(listings).to_set(),
        all_candidates(listings).contains(path),
    ensures
        exists|i: int| 0 <= i < paths.len() && paths[i] == path,
        forall|i: int, j: int|
            0 <= i < paths.len() && 0 <= j < paths.len() && paths[i] == path && paths[j] == path
                ==> i == j,
{
    lemma_sorted_no_duplicates(paths);
    assert(paths.to_set().contains(path));
    assert(paths.contains(path));
}

/// Where no candidate was found twice, the list is as long as the candidates
/// are many.
pub proof fn lemma_found_count(listings: Seq<Listing>, paths: Seq<Seq<char>>)
    requires
        strictly_sorted(paths),
        paths.to_set() == all_candidates(listings).to_set(),
        all_candidates(listings).no_duplicates(),
    ensures
        paths.len() == all_candidates(listings).len(),
{
    lemma_sorted_no_duplicates(paths);
    paths.unique_seq_to_set();
    all_candidates(listings).unique_seq_to_set();
}

/// Where each of `entries` is a candidate, their paths are the candidates.
proof fn lemma_all_candidates(entries: Seq<Entry>)
    requires
        forall|i: int| 0 <= i < entries.len() ==> is_candidate(#[trigger] entries[i]),
    ensures
        candidate_paths(entries) == entries.map_values(|entry: Entry| entry.path@),
    decreases entries.len(),
{
    if entries.len() == 0 {
        lemma_candidates_of_none();
    } else {
        let shorter = entries.drop_last();
        assert forall|i: int| 0 <= i < shorter.len() implies is_candidate(
            #[trigger] shorter[i],
        ) by {
            assert(shorter[i] == entries[i]);
        }
        lemma_all_candidates(shorter);
        assert(entries == shorter.push(entries.last()));
        lemma_candidates_push(shorter, entries.last());
        assert(entries.map_values(|entry: Entry| entry.path@) == shorter.map_values(
            |entry: Entry| entry.path@,
        ).push(entries.last().path@));
    }
}

/// A directory that holds so many regular files, none of them a compiled
/// index, and no directory, gives a list of exactly that length: one path for
/// each of the files.
pub proof fn lemma_flat_directory(
    listing: Listing,
    directory: Entry,
    files: Seq<Entry>,
    paths: Seq<Seq<char>>,
)
    requires
        listing.found matches Ok(entries) && entries@ == seq![directory] + files,
        !directory.is_file,
        forall|i: int|
            0 <= i < files.len() ==> (#[trigger] files[i]).is_file && !has_reserved_extension(
                files[i].name@,
            ),
        forall|i: int, j: int|
            0 <= i < files.len() && 0 <= j < files.len() && i != j ==> (#[trigger] files[i]).path@
                != (#[trigger] files[j]).path@,
        strictly_sorted(paths),
        paths.to_set() == all_candidates(seq![listing]).to_set(),
    ensures
        paths.len() == files.len(),
        paths.no_duplicates(),
{
    let listings = seq![listing];
    let found = files.map_values(|entry: Entry| entry.path@);
    files.lemma_filter_prepend(directory, |entry: Entry| is_candidate(entry));
    assert(Seq::<Entry>::empty() + files == files);
    lemma_all_candidates(files);
    assert(listings.drop_last() == Seq::<Listing>::empty());
    assert(all_candidates(listings.drop_last()) == Seq::<Seq<char>>::empty());
    assert(all_candidates(listings) == found);
    assert(found.no_duplicates());
    lemma_found_count(listings, paths);
    lemma_sorted_no_duplicates(paths);
}

} // verus!
