//! The store: all the fortunes of a run, in the order in which they were
//! read. Once made, a store does not change.
use vstd::prelude::*;
use crate::error::FortuneError;
use crate::fortune::all_records;
use crate::fortune::file_failure;
use crate::fortune::read_fortunes;
use crate::fortune::readable_len;
use crate::fortune::record_views;
use crate::fortune::Fortune;
use crate::fortune::Record;
use crate::fortune::SourceFile;
use crate::matcher::filter;
use crate::matcher::group_views;
use crate::matcher::matching_groups;
use crate::matcher::Group;
use crate::pattern::Pattern;
use crate::select::option_view;
use crate::select::pick_fortune;
use crate::select::is_pick;

verus! {

/// The fortunes of a run.
#[derive(Debug)]
pub struct Store {
    fortunes: Vec<Fortune>,
}

impl View for Store {
    type V = Seq<Record>;

    closed spec fn view(&self) -> Seq<Record> {
        record_views(self.fortunes@)
    }
}

impl Store {
    /// A store of `fortunes`, in their order.
    pub fn new(fortunes: Vec<Fortune>) -> (store: Store)
        ensures
            store@ == record_views(fortunes@),
    {
        Store { fortunes }
    }

    /// A store of the records of `files`, file after file. The first file that
    /// fails ends the work, and there is no store then.
    pub fn from_files(files: &[SourceFile]) -> (r: Result<Store, FortuneError>)
        ensures
            match r {
                Ok(store) => readable_len(files@) == files@.len() && store@ == all_records(files@),
                Err(e) => {
                    let k = readable_len(files@) as int;
                    &&& k < files@.len()
                    &&& e matches FortuneError::ReadFailure { path, cause }
                    &&& path@ == files@[k].path@
                    &&& Some(cause@) == file_failure(files@[k])
                },
            },
    {
        match read_fortunes(files) {
            Ok(fortunes) => Ok(Store { fortunes }),
            Err(e) => Err(e),
        }
    }

    /// All the fortunes, in their order.
    pub fn all(&self) -> (fortunes: &[Fortune])
        ensures
            record_views(fortunes@) == self@,
    {
        self.fortunes.as_slice()
    }

    /// How many fortunes the store holds.
    pub fn len(&self) -> (len: usize)
        ensures
            len == self@.len(),
    {
        self.fortunes.len()
    }

    /// Whether the store holds no fortune.
    pub fn is_empty(&self) -> (empty: bool)
        ensures
            empty == (self@.len() == 0),
    {
        self.fortunes.len() == 0
    }

    /// Picks one fortune and returns a copy of its text: nothing from an empty
    /// store; with a seed, the text that the seed chooses; without one, the
    /// text of any of the fortunes.
    pub fn pick(&self, seed: Option<u64>) -> (text: Option<String>)
        ensures
            is_pick(self@, seed, option_view(text)),
    {
        pick_fortune(self.fortunes.as_slice(), seed)
    }

    /// All the groups that `pattern` finds in the store, in order.
    pub fn filter(&self, pattern: &Pattern) -> (groups: Vec<Group>)
        ensures
            group_views(groups@) == matching_groups(self@, *pattern),
    {
        filter(self.fortunes.as_slice(), pattern)
    }
}

} // verus!
