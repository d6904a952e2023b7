//! The set of documents currently open on the server, keyed by their
//! identifiers.
//!
//! The store is viewed as a map from identifier to document text; at most
//! one document is held per identifier, and no two identifiers share a
//! document. Callers that serve several clients serialize access to a
//! workspace around these operations.

use vstd::prelude::*;

use crate::buffer::Edit;
use crate::buffer::batch_applied;
use crate::buffer::batch_valid;
use crate::buffer::lemma_batch_snoc;
use crate::buffer::lemma_batch_stops;
use crate::error::CoreError;
use crate::file::File;

verus! {

/// Whether no two documents of `fs` share an identifier.
pub open spec fn urls_unique(fs: Seq<File>) -> bool {
    forall|i: int, j: int| 0 <= i < j < fs.len() ==> fs[i].url@ != fs[j].url@
}

/// The map from identifier to text that a sequence of documents holds;
/// later entries win, though a well-formed workspace never has two with
/// one identifier.
pub closed spec fn files_map(fs: Seq<File>) -> Map<Seq<char>, Seq<char>>
    decreases fs.len(),
{
    if fs.len() == 0 {
        Map::empty()
    } else {
        files_map(fs.drop_last()).insert(fs.last().url@, fs.last().text@)
    }
}

/// A key is in the map exactly when some document carries it.
proof fn lemma_files_map_contains(fs: Seq<File>, u: Seq<char>)
    ensures
        files_map(fs).contains_key(u) <==> exists|i: int| 0 <= i < fs.len() && fs[i].url@ == u,
    decreases fs.len(),
{
    if fs.len() > 0 {
        lemma_files_map_contains(fs.drop_last(), u);
        if fs.last().url@ == u {
            assert(fs[fs.len() - 1].url@ == u);
        } else if files_map(fs.drop_last()).contains_key(u) {
            let i = choose|i: int| 0 <= i < fs.drop_last().len() && fs.drop_last()[i].url@ == u;
            assert(fs[i].url@ == u);
        } else if exists|i: int| 0 <= i < fs.len() && fs[i].url@ == u {
            let i = choose|i: int| 0 <= i < fs.len() && fs[i].url@ == u;
            assert(fs.drop_last()[i].url@ == u);
        }
    }
}

/// In a well-formed sequence each document's identifier maps to its own
/// text.
proof fn lemma_files_map_index(fs: Seq<File>, k: int)
    requires
        urls_unique(fs),
        0 <= k < fs.len(),
    ensures
        files_map(fs).contains_key(fs[k].url@),
        files_map(fs)[fs[k].url@] == fs[k].text@,
    decreases fs.len(),
{
    lemma_files_map_contains(fs, fs[k].url@);
    if k < fs.len() - 1 {
        assert(urls_unique(fs.drop_last())) by {
            assert(forall|i: int, j: int|
                0 <= i < j < fs.drop_last().len() ==> fs.drop_last()[i].url@ == fs[i].url@
                    && fs.drop_last()[j].url@ == fs[j].url@);
        }
        assert(fs.drop_last()[k] == fs[k]);
        lemma_files_map_index(fs.drop_last(), k);
        assert(fs[k].url@ != fs.last().url@);
    }
}

/// Removing document `k` removes exactly its key from the map.
proof fn lemma_files_map_remove(fs: Seq<File>, k: int)
    requires
        urls_unique(fs),
        0 <= k < fs.len(),
    ensures
        files_map(fs.remove(k)) == files_map(fs).remove(fs[k].url@),
    decreases fs.len(),
{
    assert(urls_unique(fs.drop_last())) by {
        assert(forall|i: int, j: int|
            0 <= i < j < fs.drop_last().len() ==> fs.drop_last()[i].url@ == fs[i].url@
                && fs.drop_last()[j].url@ == fs[j].url@);
    }
    if k == fs.len() - 1 {
        assert(fs.remove(k) =~= fs.drop_last());
        lemma_files_map_contains(fs.drop_last(), fs.last().url@);
        assert(!files_map(fs.drop_last()).contains_key(fs.last().url@)) by {
            if exists|i: int| 0 <= i < fs.drop_last().len() && fs.drop_last()[i].url@
                == fs.last().url@ {
                let i = choose|i: int|
                    0 <= i < fs.drop_last().len() && fs.drop_last()[i].url@ == fs.last().url@;
                assert(fs[i].url@ == fs[fs.len() - 1].url@);
            }
        }
        assert(files_map(fs.remove(k)) =~= files_map(fs).remove(fs[k].url@));
    } else {
        lemma_files_map_remove(fs.drop_last(), k);
        assert(fs.drop_last()[k] == fs[k]);
        assert(fs.remove(k).last() == fs.last());
        assert(fs.remove(k).drop_last() =~= fs.drop_last().remove(k));
        assert(fs[k].url@ != fs.last().url@);
        assert(files_map(fs.remove(k)) =~= files_map(fs).remove(fs[k].url@));
    }
}

/// A well-formed sequence has as many map entries as documents.
proof fn lemma_files_map_len(fs: Seq<File>)
    requires
        urls_unique(fs),
    ensures
        files_map(fs).dom().finite(),
        files_map(fs).dom().len() == fs.len(),
    decreases fs.len(),
{
    if fs.len() == 0 {
        assert(files_map(fs).dom() =~= Set::<Seq<char>>::empty());
    } else {
        assert(urls_unique(fs.drop_last())) by {
            assert(forall|i: int, j: int|
                0 <= i < j < fs.drop_last().len() ==> fs.drop_last()[i].url@ == fs[i].url@
                    && fs.drop_last()[j].url@ == fs[j].url@);
        }
        lemma_files_map_len(fs.drop_last());
        lemma_files_map_contains(fs.drop_last(), fs.last().url@);
        assert(!files_map(fs.drop_last()).contains_key(fs.last().url@)) by {
            if exists|i: int| 0 <= i < fs.drop_last().len() && fs.drop_last()[i].url@
                == fs.last().url@ {
                let i = choose|i: int|
                    0 <= i < fs.drop_last().len() && fs.drop_last()[i].url@ == fs.last().url@;
                assert(fs[i].url@ == fs[fs.len() - 1].url@);
            }
        }
        assert(files_map(fs).dom() =~= files_map(fs.drop_last()).dom().insert(fs.last().url@));
    }
}

/// The open documents, keyed by identifier.
pub struct Workspace {
    files: Vec<File>,
}

impl View for Workspace {
    type V = Map<Seq<char>, Seq<char>>;

    closed spec fn view(&self) -> Map<Seq<char>, Seq<char>> {
        files_map(self.files@)
    }
}

impl Workspace {
    /// No two documents of the workspace share an identifier.
    pub closed spec fn wf(&self) -> bool {
        urls_unique(self.files@)
    }

    /// An empty workspace.
    pub fn new() -> (r: Workspace)
        ensures
            r.wf(),
            r@ == Map::<Seq<char>, Seq<char>>::empty(),
    {
        Workspace { files: Vec::new() }
    }

    /// How many documents are open.
    pub fn len(&self) -> (n: usize)
        requires
            self.wf(),
        ensures
            n == self@.dom().len(),
    {
        proof {
            lemma_files_map_len(self.files@);
        }
        self.files.len()
    }

    /// The index of the document carrying `url`, if one is open.
    fn find_index(&self, url: &String) -> (r: Option<usize>)
        ensures
            (match r {
                Some(k) => k < self.files@.len() && self.files@[k as int].url@ == url@,
                None => !self@.contains_key(url@),
            }),
    {
        let mut k: usize = 0;
        while k < self.files.len()
            invariant
                k <= self.files@.len(),
                forall|i: int| 0 <= i < k ==> self.files@[i].url@ != url@,
            decreases self.files@.len() - k,
        {
            if self.files[k].url == *url {
                return Some(k);
            }
            k = k + 1;
        }
        proof {
            lemma_files_map_contains(self.files@, url@);
        }
        None
    }

    /// The open document carrying `url`, if any.
    pub fn get(&self, url: &String) -> (r: Option<&File>)
        requires
            self.wf(),
        ensures
            (match r {
                Some(f) => self@.contains_key(url@) && f.url@ == url@ && f.text@ == self@[url@],
                None => !self@.contains_key(url@),
            }),
            r is Some <==> self@.contains_key(url@),
    {
        match self.find_index(url) {
            Some(k) => {
                proof {
                    lemma_files_map_index(self.files@, k as int);
                }
                Some(&self.files[k])
            },
            None => None,
        }
    }

    /// Closes whatever document carries `url`; without one the workspace
    /// is unchanged.
    pub fn remove_file(&mut self, url: &String) -> (found: bool)
        requires
            old(self).wf(),
        ensures
            final(self).wf(),
            final(self)@ == old(self)@.remove(url@),
            found == old(self)@.contains_key(url@),
    {
        let r = self.find_index(url);
        match r {
            None => {
                proof {
                    assert(final(self)@ =~= old(self)@.remove(url@));
                }
                false
            },
            Some(k) => {
                proof {
                    lemma_files_map_index(self.files@, k as int);
                    lemma_files_map_remove(self.files@, k as int);
                }
                let ghost fs0 = self.files@;
                self.files.remove(k);
                proof {
                    assert(urls_unique(self.files@)) by {
                        assert forall|i: int, j: int|
                            0 <= i < j < self.files@.len() implies self.files@[i].url@
                            != self.files@[j].url@ by {
                            let i0 = if i < k {
                                i
                            } else {
                                i + 1
                            };
                            let j0 = if j < k {
                                j
                            } else {
                                j + 1
                            };
                            assert(self.files@[i] == fs0[i0] && self.files@[j] == fs0[j0]);
                        }
                    }
                }
                true
            },
        }
    }

    /// Opens or replaces the document carrying `file`'s identifier.
    pub fn add_file(&mut self, file: File) -> (r: ())
        requires
            old(self).wf(),
        ensures
            final(self).wf(),
            final(self)@ == old(self)@.insert(file.url@, file.text@),
    {
        self.remove_file(&file.url);
        let ghost mid = self@;
        let ghost fs_mid = self.files@;
        proof {
            lemma_files_map_contains(fs_mid, file.url@);
        }
        self.files.push(file);
        proof {
            assert(self.files@.drop_last() =~= fs_mid);
            assert(self@ == files_map(fs_mid).insert(file.url@, file.text@));
            assert(self@ =~= old(self)@.insert(file.url@, file.text@));
            assert(urls_unique(self.files@)) by {
                assert forall|i: int, j: int|
                    0 <= i < j < self.files@.len() implies self.files@[i].url@
                    != self.files@[j].url@ by {
                    if j < self.files@.len() - 1 {
                        assert(self.files@[i] == fs_mid[i] && self.files@[j] == fs_mid[j]);
                    } else {
                        assert(self.files@[i] == fs_mid[i]);
                        assert(!mid.contains_key(file.url@));
                    }
                }
            }
        }
    }

    /// Opens a document with the given identifier and initial text,
    /// replacing any already carrying that identifier.
    pub fn open(&mut self, url: String, text: String) -> (r: ())
        requires
            old(self).wf(),
        ensures
            final(self).wf(),
            final(self)@ == old(self)@.insert(url@, text@),
    {
        let file = File::new(url, text);
        self.add_file(file);
    }

    /// Closes the document carrying `url`.
    pub fn close(&mut self, url: &String) -> (found: bool)
        requires
            old(self).wf(),
        ensures
            final(self).wf(),
            final(self)@ == old(self)@.remove(url@),
            found == old(self)@.contains_key(url@),
    {
        self.remove_file(url)
    }

    /// Applies a batch of edits, in order, to the document carrying
    /// `url`; each edit is interpreted against the text the previous
    /// edits produced. The first malformed edit stops the batch and is
    /// reported, the edits before it remaining applied; an unknown
    /// identifier leaves the workspace unchanged.
    pub fn apply_changes(&mut self, url: &String, changes: &Vec<Edit>) -> (r: Result<
        (),
        CoreError,
    >)
        requires
            old(self).wf(),
        ensures
            final(self).wf(),
            !old(self)@.contains_key(url@) ==> (r matches Err(e) && e is DocumentNotFound)
                && final(self)@ == old(self)@,
            old(self)@.contains_key(url@) ==> ({
                let applied = batch_applied(old(self)@[url@], changes@);
                &&& final(self)@ == old(self)@.insert(url@, applied)
                &&& (r is Ok <==> batch_valid(old(self)@[url@], changes@))
                &&& (r matches Err(e) ==> e is MalformedEdit)
            }),
    {
        let k = match self.find_index(url) {
            Some(k) => k,
            None => {
                return Err(CoreError::DocumentNotFound);
            },
        };
        proof {
            lemma_files_map_index(self.files@, k as int);
            lemma_files_map_remove(self.files@, k as int);
        }
        let ghost fs0 = self.files@;
        let mut file = self.files.remove(k);
        proof {
            assert(urls_unique(self.files@)) by {
                assert forall|i: int, j: int|
                    0 <= i < j < self.files@.len() implies self.files@[i].url@
                    != self.files@[j].url@ by {
                    let i0 = if i < k {
                        i
                    } else {
                        i + 1
                    };
                    let j0 = if j < k {
                        j
                    } else {
                        j + 1
                    };
                    assert(self.files@[i] == fs0[i0] && self.files@[j] == fs0[j0]);
                }
            }
            lemma_files_map_contains(self.files@, url@);
        }
        let ghost c0 = file.text@;
        let mut i: usize = 0;
        let mut failed = false;
        proof {
            assert(changes@.take(0) =~= Seq::<Edit>::empty());
        }
        while i < changes.len() && !failed
            invariant
                i <= changes@.len(),
                file.url@ == url@,
                !failed ==> batch_valid(c0, changes@.take(i as int)) && file.text@ == batch_applied(
                    c0,
                    changes@.take(i as int),
                ),
                failed ==> file.text@ == batch_applied(c0, changes@) && !batch_valid(c0, changes@),
            decreases changes@.len() - i, (if failed {
                0int
            } else {
                1int
            }),
        {
            let ghost pre = changes@.take(i as int);
            proof {
                lemma_batch_snoc(c0, pre, changes@[i as int]);
                assert(changes@.take(i as int + 1) =~= pre.push(changes@[i as int]));
            }
            match file.apply_change(&changes[i]) {
                Ok(()) => {
                    i = i + 1;
                },
                Err(_) => {
                    proof {
                        lemma_batch_stops(c0, changes@, i as int);
                    }
                    failed = true;
                },
            }
        }
        proof {
            if !failed {
                assert(changes@.take(changes@.len() as int) =~= changes@);
            }
        }
        let ghost fs_mid = self.files@;
        let ghost mid = self@;
        self.files.push(file);
        proof {
            assert(self.files@.drop_last() =~= fs_mid);
            assert(self@ == files_map(fs_mid).insert(url@, file.text@));
            assert(self@ =~= old(self)@.insert(url@, file.text@));
            assert(urls_unique(self.files@)) by {
                assert forall|i2: int, j2: int|
                    0 <= i2 < j2 < self.files@.len() implies self.files@[i2].url@
                    != self.files@[j2].url@ by {
                    if j2 < self.files@.len() - 1 {
                        assert(self.files@[i2] == fs_mid[i2] && self.files@[j2] == fs_mid[j2]);
                    } else {
                        assert(self.files@[i2] == fs_mid[i2]);
                        assert(!mid.contains_key(url@));
                    }
                }
            }
        }
        if failed {
            Err(CoreError::MalformedEdit)
        } else {
            Ok(())
        }
    }
}

} // verus!
