//! One open document: its identifier and its text.
//!
//! A document identifier is an opaque, percent-encoded locator of the
//! shape `scheme://authority/path`. The path portion is read off the
//! identifier, its separators are normalized so that backslashes count as
//! path separators, and percent-escapes are decoded once; the directory
//! containing the document is then the base against which the completion
//! resolver interprets relative path fragments.

use vstd::prelude::*;

use crate::buffer::Edit;
use crate::buffer::TextBuffer;
use crate::buffer::edit_applied;
use crate::buffer::edit_valid;
use crate::buffer::line_at;
use crate::buffer::line_count;
use crate::error::CoreError;
use crate::text::chars_of;
use crate::text::copy_range;
use crate::text::normalize_seps;
use crate::text::normalize_seps_exec;
use crate::text::rfind;
use crate::text::rfind_exec;
use crate::text::string_of;

verus! {

/// Whether the scheme separator `://` stands at index `i` of `u`.
pub open spec fn sep_at(u: Seq<char>, i: int) -> bool {
    &&& 0 <= i
    &&& i + 3 <= u.len()
    &&& u[i] == ':'
    &&& u[i + 1] == '/'
    &&& u[i + 2] == '/'
}

/// The first index at or after `i` where the scheme separator stands.
pub open spec fn find_sep_from(u: Seq<char>, i: nat) -> Option<int>
    decreases u.len() - i,
{
    if i + 3 > u.len() {
        None
    } else if sep_at(u, i as int) {
        Some(i as int)
    } else {
        find_sep_from(u, i + 1)
    }
}

/// The first index at or after `i` holding a forward slash.
pub open spec fn find_slash_from(u: Seq<char>, i: nat) -> Option<int>
    decreases u.len() - i,
{
    if i >= u.len() {
        None
    } else if u[i as int] == '/' {
        Some(i as int)
    } else {
        find_slash_from(u, i + 1)
    }
}

/// The path portion of an identifier: for `scheme://authority/p` the
/// suffix starting at the first slash after the separator. An identifier
/// without a scheme separator is read as a bare path; one whose authority
/// is never followed by a slash has an empty path.
pub open spec fn raw_path_of(u: Seq<char>) -> Seq<char> {
    match find_sep_from(u, 0) {
        None => u,
        Some(i) => match find_slash_from(u, (i + 3) as nat) {
            None => Seq::empty(),
            Some(p) => u.subrange(p, u.len() as int),
        },
    }
}

/// The path portion with both separator styles read as forward slashes.
pub open spec fn url_path(u: Seq<char>) -> Seq<char> {
    normalize_seps(raw_path_of(u))
}

/// The directory containing `p`: everything before the last separator,
/// one trailing separator being ignored. A bare name or the root itself
/// has no parent.
pub open spec fn parent_dir(p: Seq<char>) -> Option<Seq<char>> {
    let q = if p.len() > 1 && p.last() == '/' {
        p.drop_last()
    } else {
        p
    };
    match rfind(q, '/') {
        None => None,
        Some(i) => if i == 0 {
            if q.len() > 1 {
                Some(seq!['/'])
            } else {
                None
            }
        } else {
            Some(q.take(i))
        },
    }
}

/// What percent-decoding an identifier path yields, when its escapes
/// decode to well-formed text.
pub uninterp spec fn percent_decoded(s: Seq<char>) -> Option<Seq<char>>;

/// Relies on `percent_encoding::percent_decode` followed by
/// `decode_utf8`: every `%` followed by two hex digits becomes the byte
/// they spell, other bytes pass through unchanged, and the result must
/// be well-formed text. The outcome is a function of the input alone,
/// and an input without `%` decodes to itself.
#[verifier::external_body]
fn percent_decode_utf8(s: &str) -> (r: Option<String>)
    ensures
        (match r {
            Some(d) => percent_decoded(s@) == Some(d@),
            None => percent_decoded(s@) is None,
        }),
        (match r {
            Some(d) => !s@.contains('%') ==> d@ == s@,
            None => s@.contains('%'),
        }),
{
    match percent_encoding::percent_decode(s.as_bytes()).decode_utf8() {
        Ok(d) => Some(d.to_string()),
        Err(_) => None,
    }
}

/// The first scheme separator in `v`, matching `find_sep_from` at zero.
fn find_sep_exec(v: &Vec<char>) -> (r: Option<usize>)
    ensures
        match r {
            Some(i) => find_sep_from(v@, 0) == Some(i as int) && i + 3 <= v@.len(),
            None => find_sep_from(v@, 0) is None,
        },
{
    if v.len() < 3 {
        return None;
    }
    let stop = v.len() - 3;
    let mut i: usize = 0;
    while i <= stop
        invariant
            3 <= v@.len() <= usize::MAX,
            stop == v@.len() - 3,
            i <= stop + 1,
            find_sep_from(v@, 0) == find_sep_from(v@, i as nat),
        decreases stop + 1 - i,
    {
        if v[i] == ':' && v[i + 1] == '/' && v[i + 2] == '/' {
            return Some(i);
        }
        proof {
            assert(find_sep_from(v@, i as nat) == find_sep_from(v@, i as nat + 1));
        }
        i = i + 1;
    }
    None
}

/// The first forward slash at or after `from`, matching `find_slash_from`.
fn find_slash_exec(v: &Vec<char>, from: usize) -> (r: Option<usize>)
    requires
        from <= v@.len(),
    ensures
        match r {
            Some(i) => find_slash_from(v@, from as nat) == Some(i as int) && from <= i < v@.len(),
            None => find_slash_from(v@, from as nat) is None,
        },
{
    let mut i = from;
    while i < v.len()
        invariant
            from <= i <= v@.len(),
            find_slash_from(v@, from as nat) == find_slash_from(v@, i as nat),
        decreases v@.len() - i,
    {
        if v[i] == '/' {
            return Some(i);
        }
        proof {
            assert(find_slash_from(v@, i as nat) == find_slash_from(v@, i as nat + 1));
        }
        i = i + 1;
    }
    None
}

/// One open document: its identifier and its mutable text.
pub struct File {
    pub url: String,
    pub text: TextBuffer,
}

impl File {
    /// A document with the given identifier, holding the given text.
    pub fn new(url: String, text: String) -> (r: File)
        ensures
            r.url@ == url@,
            r.text@ == text@,
    {
        let buffer = TextBuffer::create(text.as_str());
        File { url, text: buffer }
    }

    /// The content of the given line, terminator included, or
    /// `LineOutOfRange` when the document has fewer lines.
    pub fn get_line_content(&self, line: u32) -> (r: Result<String, CoreError>)
        ensures
            (line as nat) < line_count(self.text@) ==> (r matches Ok(c) && c@ == line_at(
                self.text@,
                line as nat,
            )),
            (line as nat) >= line_count(self.text@) ==> (r matches Err(e) && e is LineOutOfRange),
    {
        self.text.line_content(line as usize)
    }

    /// The filesystem path the identifier denotes: its path portion with
    /// separators normalized and percent-escapes decoded. Fails when the
    /// escapes do not decode to well-formed text.
    pub fn path(&self) -> (r: Result<String, CoreError>)
        ensures
            r matches Ok(p) ==> percent_decoded(url_path(self.url@)) == Some(p@),
            r matches Err(e) ==> e is NoOriginDirectory && percent_decoded(
                url_path(self.url@),
            ) is None,
    {
        let raw = chars_of(self.url.as_str());
        let rlen = raw.len();
        let sub: Vec<char> = match find_sep_exec(&raw) {
            None => raw,
            Some(i) => match find_slash_exec(&raw, i + 3) {
                None => Vec::new(),
                Some(p) => copy_range(&raw, p, rlen),
            },
        };
        proof {
            assert(sub@ == raw_path_of(self.url@));
        }
        let norm = normalize_seps_exec(&sub);
        let owned = string_of(&norm);
        match percent_decode_utf8(owned.as_str()) {
            Some(d) => Ok(d),
            None => Err(CoreError::NoOriginDirectory),
        }
    }

    /// The directory containing the document: the parent of `path()`.
    /// Fails when the identifier does not decode or its path has no
    /// parent to offer.
    pub fn directory(&self) -> (r: Result<String, CoreError>)
        ensures
            r matches Ok(d) ==> (percent_decoded(url_path(self.url@)) matches Some(p)
                && parent_dir(p) == Some(d@)),
            r matches Err(e) ==> e is NoOriginDirectory && (percent_decoded(
                url_path(self.url@),
            ) is None || parent_dir(percent_decoded(url_path(self.url@))->0) is None),
    {
        let p = match self.path() {
            Ok(p) => p,
            Err(e) => {
                return Err(e);
            },
        };
        let pv = chars_of(p.as_str());
        let qlen = if pv.len() > 1 && pv[pv.len() - 1] == '/' {
            pv.len() - 1
        } else {
            pv.len()
        };
        let q = copy_range(&pv, 0, qlen);
        proof {
            if pv@.len() > 1 && pv@.last() == '/' {
                assert(q@ =~= pv@.drop_last());
            } else {
                assert(q@ =~= pv@);
            }
        }
        match rfind_exec(&q, '/') {
            None => Err(CoreError::NoOriginDirectory),
            Some(i) => {
                proof {
                    crate::text::lemma_rfind(q@, '/');
                }
                if i == 0 {
                    if q.len() > 1 {
                        let slash = String::from_str("/");
                        proof {
                            reveal_strlit("/");
                            assert(slash@ =~= seq!['/']);
                        }
                        Ok(slash)
                    } else {
                        Err(CoreError::NoOriginDirectory)
                    }
                } else {
                    let d = copy_range(&q, 0, i);
                    Ok(string_of(&d))
                }
            },
        }
    }

    /// Applies one edit to the document's text; the identifier never
    /// changes. A malformed range leaves the text as it was.
    pub fn apply_change(&mut self, e: &Edit) -> (r: Result<(), CoreError>)
        ensures
            final(self).url == old(self).url,
            edit_valid(old(self).text@, *e) ==> r is Ok && final(self).text@ == edit_applied(
                old(self).text@,
                *e,
            ),
            !edit_valid(old(self).text@, *e) ==> (r matches Err(err) && err is MalformedEdit)
                && final(self).text@ == old(self).text@,
    {
        self.text.apply_edit(e)
    }
}

} // verus!
