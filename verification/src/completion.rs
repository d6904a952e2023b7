//! Path completion for an ignore-pattern line under the cursor.
//!
//! The current line is trimmed, optionally stripped of leading anchor and
//! negation markers, and split at its last separator: everything before
//! the separator names a directory relative to the document's origin, and
//! everything after is the fragment still being typed. The resolved
//! directory is handed to the caller to list; the entries come back as
//! plain name/kind pairs and are filtered into candidates, hidden entries
//! being offered only when the fragment itself starts with a dot.

use vstd::prelude::*;

use crate::buffer::line_at;
use crate::buffer::line_count;
use crate::error::CoreError;
use crate::file::parent_dir;
use crate::file::percent_decoded;
use crate::file::url_path;
use crate::text::chars_of;
use crate::text::copy_range;
use crate::text::append_chars;
use crate::text::normalize_seps;
use crate::text::normalize_seps_exec;
use crate::text::rfind;
use crate::text::rfind_exec;
use crate::text::string_of;
use crate::text::trimmed;
use crate::text::trimmed_exec;
use crate::workspace::Workspace;

verus! {

/// One directory entry as the caller read it from the filesystem: its
/// name and whether it is itself a directory.
pub struct DirEntryInfo {
    pub name: String,
    pub is_dir: bool,
}

/// One completion suggestion: the entry name to offer, whether it is a
/// directory, and the entry's full resolved path as informational detail.
pub struct CompletionCandidate {
    pub label: String,
    pub is_directory: bool,
    pub detail: String,
}

/// Where a completion request leads: the directory whose entries are to
/// be listed, and the fragment the candidates extend.
#[derive(Debug)]
pub struct CompletionTarget {
    pub directory: String,
    pub fragment: String,
}

/// Whether `c` is an anchor or negation marker of ignore-pattern syntax.
pub open spec fn is_anchor(c: char) -> bool {
    c == '/' || c == '!'
}

/// `s` without its leading anchor and negation markers.
pub open spec fn strip_anchors(s: Seq<char>) -> Seq<char>
    decreases s.len(),
{
    if s.len() > 0 && is_anchor(s[0]) {
        strip_anchors(s.drop_first())
    } else {
        s
    }
}

proof fn lemma_strip_anchors_skip(s: Seq<char>, i: int)
    requires
        0 <= i <= s.len(),
        forall|k: int| 0 <= k < i ==> is_anchor(s[k]),
    ensures
        strip_anchors(s) == strip_anchors(s.subrange(i, s.len() as int)),
    decreases i,
{
    if i > 0 {
        assert(strip_anchors(s) == strip_anchors(s.drop_first()));
        let s1 = s.subrange(1, s.len() as int);
        assert(s.drop_first() =~= s1);
        assert forall|k: int| 0 <= k < i - 1 implies is_anchor(s1[k]) by {
            assert(s1[k] == s[k + 1]);
        }
        lemma_strip_anchors_skip(s1, i - 1);
        assert(s1.subrange(i - 1, s1.len() as int) =~= s.subrange(i, s.len() as int));
    } else {
        assert(s.subrange(0, s.len() as int) =~= s);
    }
}

fn strip_anchors_exec(v: &Vec<char>) -> (r: Vec<char>)
    ensures
        r@ == strip_anchors(v@),
{
    let mut a: usize = 0;
    while a < v.len() && (v[a] == '/' || v[a] == '!')
        invariant
            a <= v@.len(),
            forall|k: int| 0 <= k < a ==> is_anchor(v@[k]),
        decreases v@.len() - a,
    {
        a = a + 1;
    }
    proof {
        lemma_strip_anchors_skip(v@, a as int);
        if a < v@.len() {
            assert(!is_anchor(v@.subrange(a as int, v@.len() as int)[0]));
        } else {
            assert(v@.subrange(a as int, v@.len() as int) =~= Seq::<char>::empty());
        }
    }
    copy_range(v, a, v.len())
}

/// The directory named by the part of the line before its last
/// separator: a line ending in a separator names that whole directory; a
/// line without a separator names none; a separator at the very front
/// names the root.
pub open spec fn line_dir_part(line: Seq<char>) -> Seq<char> {
    if line.len() > 0 && line.last() == '/' {
        line.drop_last()
    } else {
        match rfind(line, '/') {
            None => Seq::empty(),
            Some(i) => if i == 0 {
                seq!['/']
            } else {
                line.take(i)
            },
        }
    }
}

/// The fragment still being typed: what follows the last separator, the
/// whole line when it has none, and nothing when it ends in one.
pub open spec fn line_fragment(line: Seq<char>) -> Seq<char> {
    if line.len() > 0 && line.last() == '/' {
        Seq::empty()
    } else {
        match rfind(line, '/') {
            None => line,
            Some(i) => line.subrange(i + 1, line.len() as int),
        }
    }
}

/// `rel` resolved against `origin`: an empty fragment keeps the origin,
/// an absolute fragment replaces it, and anything else is appended behind
/// a single separator.
pub open spec fn join_path(origin: Seq<char>, rel: Seq<char>) -> Seq<char> {
    if rel.len() == 0 {
        origin
    } else if rel[0] == '/' {
        rel
    } else if origin.len() > 0 && origin.last() == '/' {
        origin + rel
    } else {
        origin + seq!['/'] + rel
    }
}

/// Whether a name or fragment starts with the hidden-file marker.
pub open spec fn starts_dotted(s: Seq<char>) -> bool {
    s.len() > 0 && s[0] == '.'
}

/// Whether a directory entry survives the hidden-file filter: hidden
/// entries are offered exactly when the fragment itself is dotted.
pub open spec fn entry_kept(name: Seq<char>, frag: Seq<char>) -> bool {
    starts_dotted(name) == starts_dotted(frag)
}

/// The name/kind views of a sequence of directory entries.
pub open spec fn entry_views(es: Seq<DirEntryInfo>) -> Seq<(Seq<char>, bool)> {
    es.map_values(|e: DirEntryInfo| (e.name@, e.is_dir))
}

/// The label/kind/detail views of a sequence of candidates.
pub open spec fn cand_views(cs: Seq<CompletionCandidate>) -> Seq<(Seq<char>, bool, Seq<char>)> {
    cs.map_values(|c: CompletionCandidate| (c.label@, c.is_directory, c.detail@))
}

/// The candidates that a listing yields, in listing order: every entry
/// that survives the hidden-file filter, labelled with its name and
/// detailed with its path under `dir`.
pub open spec fn candidates_spec(
    es: Seq<(Seq<char>, bool)>,
    dir: Seq<char>,
    frag: Seq<char>,
) -> Seq<(Seq<char>, bool, Seq<char>)>
    decreases es.len(),
{
    if es.len() == 0 {
        Seq::empty()
    } else {
        let rest = candidates_spec(es.drop_last(), dir, frag);
        if entry_kept(es.last().0, frag) {
            rest.push((es.last().0, es.last().1, join_path(dir, es.last().0)))
        } else {
            rest
        }
    }
}

fn join_exec(origin: &Vec<char>, rel: &Vec<char>) -> (r: Vec<char>)
    ensures
        r@ == join_path(origin@, rel@),
{
    if rel.len() == 0 {
        copy_range(origin, 0, origin.len())
    } else if rel[0] == '/' {
        proof {
            assert(origin@.subrange(0, origin@.len() as int) =~= origin@);
        }
        copy_range(rel, 0, rel.len())
    } else {
        let mut out = copy_range(origin, 0, origin.len());
        proof {
            assert(out@ =~= origin@);
        }
        if !(origin.len() > 0 && origin[origin.len() - 1] == '/') {
            out.push('/');
            proof {
                assert(out@ =~= origin@ + seq!['/']);
            }
        }
        append_chars(&mut out, rel);
        proof {
            if origin@.len() > 0 && origin@.last() == '/' {
                assert(out@ =~= origin@ + rel@);
            } else {
                assert(out@ =~= origin@ + seq!['/'] + rel@);
            }
        }
        out
    }
}

fn starts_dotted_exec(s: &String) -> (r: bool)
    ensures
        r == starts_dotted(s@),
{
    if s.as_str().is_empty() {
        false
    } else {
        s.as_str().get_char(0) == '.'
    }
}

fn split_line(l: &Vec<char>) -> (r: (Vec<char>, Vec<char>))
    ensures
        r.0@ == line_dir_part(l@),
        r.1@ == line_fragment(l@),
{
    let llen = l.len();
    if llen > 0 && l[llen - 1] == '/' {
        let d = copy_range(l, 0, llen - 1);
        proof {
            assert(d@ =~= l@.drop_last());
        }
        (d, Vec::new())
    } else {
        match rfind_exec(l, '/') {
            None => {
                let f = copy_range(l, 0, llen);
                proof {
                    assert(f@ =~= l@);
                }
                (Vec::new(), f)
            },
            Some(i) => {
                proof {
                    crate::text::lemma_rfind(l@, '/');
                }
                let d: Vec<char> = if i == 0 {
                    let mut d0: Vec<char> = Vec::new();
                    d0.push('/');
                    proof {
                        assert(d0@ =~= seq!['/']);
                    }
                    d0
                } else {
                    copy_range(l, 0, i)
                };
                (d, copy_range(l, i + 1, llen))
            },
        }
    }
}

/// Where a document identifier leads when its path portion decodes and
/// has a parent: the directory containing the document.
pub open spec fn origin_of(url: Seq<char>) -> Option<Seq<char>> {
    match percent_decoded(url_path(url)) {
        None => None,
        Some(p) => parent_dir(p),
    }
}

/// The completion engine and its two resolution choices: whether leading
/// anchor and negation markers are stripped from the line, and whether
/// separators are normalized before or only after the last-separator
/// split.
pub struct CompletionModule {
    pub strip_anchor_markers: bool,
    pub normalize_before_split: bool,
}

impl Default for CompletionModule {
    /// The default engine keeps anchor markers, as the pattern syntax
    /// gives them meaning, and normalizes separators before splitting.
    fn default() -> (r: CompletionModule)
        ensures
            !r.strip_anchor_markers,
            r.normalize_before_split,
    {
        CompletionModule { strip_anchor_markers: false, normalize_before_split: true }
    }
}

/// The line as the resolver reads it: trimmed, optionally stripped of
/// anchors, and, when separators are normalized before the split, with
/// backslashes read as separators.
pub open spec fn effective_line(m: CompletionModule, line: Seq<char>) -> Seq<char> {
    let t = trimmed(line);
    let a = if m.strip_anchor_markers {
        strip_anchors(t)
    } else {
        t
    };
    if m.normalize_before_split {
        normalize_seps(a)
    } else {
        a
    }
}

/// The directory part of the line under `m`'s choices; with
/// normalization after the split only this part is normalized.
pub open spec fn dir_part(m: CompletionModule, line: Seq<char>) -> Seq<char> {
    let d = line_dir_part(effective_line(m, line));
    if m.normalize_before_split {
        d
    } else {
        normalize_seps(d)
    }
}

/// The fragment part of the line under `m`'s choices.
pub open spec fn fragment_part(m: CompletionModule, line: Seq<char>) -> Seq<char> {
    line_fragment(effective_line(m, line))
}

impl CompletionModule {
    /// One candidate for one directory entry, or nothing when the
    /// hidden-file filter drops it.
    pub fn completion_item_for_path(
        &self,
        entry: &DirEntryInfo,
        dir: &String,
        fragment: &String,
    ) -> (r: Option<CompletionCandidate>)
        ensures
            entry_kept(entry.name@, fragment@) ==> (r matches Some(c) && c.label@ == entry.name@
                && c.is_directory == entry.is_dir && c.detail@ == join_path(dir@, entry.name@)),
            !entry_kept(entry.name@, fragment@) ==> r is None,
    {
        let name_dotted = starts_dotted_exec(&entry.name);
        let frag_dotted = starts_dotted_exec(fragment);
        if name_dotted != frag_dotted {
            return None;
        }
        let dv = chars_of(dir.as_str());
        let nv = chars_of(entry.name.as_str());
        let detail = string_of(&join_exec(&dv, &nv));
        Some(
            CompletionCandidate {
                label: entry.name.clone(),
                is_directory: entry.is_dir,
                detail,
            },
        )
    }

    /// The candidates for a whole listing, in listing order.
    pub fn completion_items_for_paths(
        &self,
        entries: &Vec<DirEntryInfo>,
        dir: &String,
        fragment: &String,
    ) -> (r: Vec<CompletionCandidate>)
        ensures
            cand_views(r@) == candidates_spec(entry_views(entries@), dir@, fragment@),
    {
        let mut out: Vec<CompletionCandidate> = Vec::new();
        let mut i: usize = 0;
        proof {
            assert(entry_views(entries@.take(0)) =~= Seq::<(Seq<char>, bool)>::empty());
            assert(cand_views(out@) =~= Seq::<(Seq<char>, bool, Seq<char>)>::empty());
        }
        while i < entries.len()
            invariant
                i <= entries@.len(),
                cand_views(out@) == candidates_spec(entry_views(entries@.take(i as int)), dir@, fragment@),
            decreases entries@.len() - i,
        {
            let ghost pre = entry_views(entries@.take(i as int));
            let ghost post = entry_views(entries@.take(i as int + 1));
            proof {
                assert(post.drop_last() =~= pre);
                assert(post.last() == (entries@[i as int].name@, entries@[i as int].is_dir));
            }
            match self.completion_item_for_path(&entries[i], dir, fragment) {
                Some(c) => {
                    let ghost before = out@;
                    out.push(c);
                    proof {
                        assert(cand_views(out@) =~= cand_views(before).push(
                            (c.label@, c.is_directory, c.detail@),
                        ));
                    }
                },
                None => {
                },
            }
            i = i + 1;
        }
        proof {
            assert(entries@.take(entries@.len() as int) =~= entries@);
        }
        out
    }

    /// Resolves a completion request for the document carrying `url` at
    /// the given line: looks the document up, reads the line, derives the
    /// origin directory, and splits the line into the directory to list
    /// and the fragment to extend. Each failure names its cause: an
    /// unknown identifier, a line beyond the document, or an identifier
    /// without a usable origin.
    pub fn get_completion_target(
        &self,
        workspace: &Workspace,
        url: &String,
        line: u32,
    ) -> (r: Result<CompletionTarget, CoreError>)
        requires
            workspace.wf(),
        ensures
            !workspace@.contains_key(url@) ==> (r matches Err(e) && e is DocumentNotFound),
            workspace@.contains_key(url@) && (line as nat) >= line_count(workspace@[url@]) ==> (
            r matches Err(e) && e is LineOutOfRange),
            workspace@.contains_key(url@) && (line as nat) < line_count(workspace@[url@])
                && origin_of(url@) is None ==> (r matches Err(e) && e is NoOriginDirectory),
            workspace@.contains_key(url@) && (line as nat) < line_count(workspace@[url@])
                && origin_of(url@) is Some ==> (r matches Ok(t) && ({
                let lc = line_at(workspace@[url@], line as nat);
                &&& t.directory@ == join_path(origin_of(url@)->0, dir_part(*self, lc))
                &&& t.fragment@ == fragment_part(*self, lc)
            })),
    {
        let file = match workspace.get(url) {
            Some(f) => f,
            None => {
                return Err(CoreError::DocumentNotFound);
            },
        };
        let content = match file.get_line_content(line) {
            Ok(c) => c,
            Err(e) => {
                return Err(e);
            },
        };
        let origin = match file.directory() {
            Ok(d) => d,
            Err(e) => {
                return Err(e);
            },
        };
        let lv = chars_of(content.as_str());
        let t = trimmed_exec(&lv);
        let a = if self.strip_anchor_markers {
            strip_anchors_exec(&t)
        } else {
            t
        };
        let eff = if self.normalize_before_split {
            normalize_seps_exec(&a)
        } else {
            a
        };
        let (dirp, frag) = split_line(&eff);
        let dirp2 = if self.normalize_before_split {
            dirp
        } else {
            normalize_seps_exec(&dirp)
        };
        let ov = chars_of(origin.as_str());
        let target = join_exec(&ov, &dirp2);
        Ok(CompletionTarget { directory: string_of(&target), fragment: string_of(&frag) })
    }
}

} // verus!
