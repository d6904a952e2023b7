//! The mutable text of one open document.
//!
//! A [`TextBuffer`] is modelled as a sequence of characters that is at all
//! times partitioned into lines: every line ends with a line feed except
//! possibly the last, and an empty buffer still counts as one empty line.
//! Edits address the text by line/column ranges and are applied against the
//! buffer's current state, never against stale coordinates.

use vstd::prelude::*;

use crate::error::CoreError;
use crate::text::chars_of;
use crate::text::string_of;

verus! {

/// A place in a buffer: a zero-based line and a zero-based column counted
/// in characters from the line start. A column may address every character
/// of the line, its terminator included, and the place just past it.
pub struct Position {
    pub line: u32,
    pub character: u32,
}

/// The half-open span of text between two positions.
pub struct EditRange {
    pub start: Position,
    pub end: Position,
}

/// One incremental modification: replace `range` with `text`, or, when
/// `range` is absent, replace the whole document with `text`.
pub struct Edit {
    pub range: Option<EditRange>,
    pub text: String,
}

/// The offset just past the line that starts at `from`: one past the next
/// line feed, or the end of the text when no line feed follows.
pub open spec fn line_end_from(s: Seq<char>, from: nat) -> nat
    decreases s.len() - from,
{
    if from >= s.len() {
        s.len()
    } else if s[from as int] == '\n' {
        from + 1
    } else {
        line_end_from(s, from + 1)
    }
}

/// The offset at which line `line` starts; each line starts where the
/// previous one ends.
pub open spec fn line_start(s: Seq<char>, line: nat) -> nat
    decreases line,
{
    if line == 0 {
        0
    } else {
        line_end_from(s, line_start(s, (line - 1) as nat))
    }
}

/// The number of line feeds in `s`.
pub open spec fn newline_count(s: Seq<char>) -> nat
    decreases s.len(),
{
    if s.len() == 0 {
        0
    } else {
        newline_count(s.drop_last()) + if s.last() == '\n' {
            1nat
        } else {
            0nat
        }
    }
}

/// The number of lines: one more than the number of line feeds, so an
/// empty buffer has one empty line and a buffer ending in a line feed has
/// an empty last line.
pub open spec fn line_count(s: Seq<char>) -> nat {
    newline_count(s) + 1
}

/// The content of line `line`, its terminating line feed included.
pub open spec fn line_at(s: Seq<char>, line: nat) -> Seq<char> {
    s.subrange(line_start(s, line) as int, line_start(s, line + 1) as int)
}

/// Whether `p` addresses a place inside `s`.
pub open spec fn position_valid(s: Seq<char>, p: Position) -> bool {
    &&& (p.line as nat) < line_count(s)
    &&& (p.character as nat) <= line_at(s, p.line as nat).len()
}

/// The flat offset that `p` addresses.
pub open spec fn position_offset(s: Seq<char>, p: Position) -> int {
    line_start(s, p.line as nat) + p.character
}

/// Whether `e` can be applied to `s`: a rangeless edit always can; a
/// ranged edit needs both positions in bounds and a start that does not
/// come after the end.
pub open spec fn edit_valid(s: Seq<char>, e: Edit) -> bool {
    match e.range {
        None => true,
        Some(r) => position_valid(s, r.start) && position_valid(s, r.end) && position_offset(
            s,
            r.start,
        ) <= position_offset(s, r.end),
    }
}

/// The text that applying `e` to `s` produces: the span between the two
/// offsets is removed and the replacement text inserted in its place, both
/// offsets being read off `s` itself.
pub open spec fn edit_applied(s: Seq<char>, e: Edit) -> Seq<char> {
    match e.range {
        None => e.text@,
        Some(r) => s.take(position_offset(s, r.start)) + e.text@ + s.subrange(
            position_offset(s, r.end),
            s.len() as int,
        ),
    }
}

// ---------------------------------------------------------------------------
// Facts about the line structure.
// ---------------------------------------------------------------------------
/// Line feeds split across a concatenation.
proof fn lemma_newline_count_concat(a: Seq<char>, b: Seq<char>)
    ensures
        newline_count(a + b) == newline_count(a) + newline_count(b),
    decreases b.len(),
{
    if b.len() == 0 {
        assert(a + b =~= a);
    } else {
        assert((a + b).drop_last() =~= a + b.drop_last());
        assert((a + b).last() == b.last());
        lemma_newline_count_concat(a, b.drop_last());
    }
}

/// A text without line feeds has none to count.
proof fn lemma_newline_count_zero(s: Seq<char>)
    requires
        forall|k: int| 0 <= k < s.len() ==> s[k] != '\n',
    ensures
        newline_count(s) == 0,
    decreases s.len(),
{
    if s.len() > 0 {
        lemma_newline_count_zero(s.drop_last());
    }
}

/// Where the scan for a line end lands: within bounds, past no line feed,
/// and just after one unless it ran off the end of the text; the span it
/// covered holds exactly one line feed in that case and none otherwise.
proof fn lemma_line_end_from(s: Seq<char>, from: nat)
    requires
        from <= s.len(),
    ensures
        from <= line_end_from(s, from) <= s.len(),
        forall|k: int| from <= k < line_end_from(s, from) - 1 ==> s[k] != '\n',
        (line_end_from(s, from) > from && s[line_end_from(s, from) - 1] == '\n')
            || (line_end_from(s, from) == s.len() && forall|k: int|
            from <= k < s.len() ==> s[k] != '\n'),
        newline_count(s.subrange(from as int, line_end_from(s, from) as int)) == if line_end_from(
            s,
            from,
        ) > from && s[line_end_from(s, from) - 1] == '\n' {
            1nat
        } else {
            0nat
        },
    decreases s.len() - from,
{
    let e = line_end_from(s, from);
    if from >= s.len() {
        assert(s.subrange(from as int, e as int) =~= Seq::<char>::empty());
    } else if s[from as int] == '\n' {
        let seg = s.subrange(from as int, e as int);
        assert(seg.len() == 1 && seg.last() == '\n');
        assert(seg.drop_last() =~= Seq::<char>::empty());
        assert(newline_count(seg.drop_last()) == 0);
        assert(newline_count(seg) == 1);
    } else {
        lemma_line_end_from(s, from + 1);
        assert(e == line_end_from(s, from + 1));
        let seg = s.subrange(from as int, e as int);
        let head = s.subrange(from as int, from as int + 1);
        let rest = s.subrange(from as int + 1, e as int);
        assert(seg =~= head + rest);
        lemma_newline_count_concat(head, rest);
        assert(head.drop_last() =~= Seq::<char>::empty());
        assert(head.last() == s[from as int]);
        assert(newline_count(head.drop_last()) == 0);
        assert(newline_count(head) == 0);
        assert(newline_count(seg) == newline_count(rest));
        if e > from + 1 && s[e - 1] == '\n' {
            assert(newline_count(rest) == 1);
        } else {
            assert(newline_count(rest) == 0);
            assert(!(e > from && s[e - 1] == '\n'));
        }
    }
}

/// Every line start lies within the text, and line starts never move
/// backwards.
proof fn lemma_line_start_bounds(s: Seq<char>, line: nat)
    ensures
        line_start(s, line) <= s.len(),
        line_start(s, line) <= line_start(s, line + 1),
    decreases line,
{
    if line == 0 {
        lemma_line_end_from(s, 0);
    } else {
        lemma_line_start_bounds(s, (line - 1) as nat);
        lemma_line_end_from(s, line_start(s, (line - 1) as nat));
        lemma_line_end_from(s, line_start(s, line));
    }
}

/// A valid position addresses an offset inside the text, at or after its
/// line's start.
proof fn lemma_position_offset_bounds(s: Seq<char>, p: Position)
    requires
        position_valid(s, p),
    ensures
        line_start(s, p.line as nat) <= position_offset(s, p) <= s.len(),
{
    lemma_line_start_bounds(s, p.line as nat);
    lemma_line_start_bounds(s, p.line as nat + 1);
}

// ---------------------------------------------------------------------------
// Batches of edits.
// ---------------------------------------------------------------------------
/// The text after applying `edits` in order, each against the text the
/// previous ones produced; the first malformed edit stops the batch with
/// the text as it then stands.
pub open spec fn batch_applied(s: Seq<char>, edits: Seq<Edit>) -> Seq<char>
    decreases edits.len(),
{
    if edits.len() == 0 {
        s
    } else if edit_valid(s, edits[0]) {
        batch_applied(edit_applied(s, edits[0]), edits.drop_first())
    } else {
        s
    }
}

/// Whether every edit of the batch is valid against the text produced by
/// the edits before it.
pub open spec fn batch_valid(s: Seq<char>, edits: Seq<Edit>) -> bool
    decreases edits.len(),
{
    if edits.len() == 0 {
        true
    } else {
        edit_valid(s, edits[0]) && batch_valid(edit_applied(s, edits[0]), edits.drop_first())
    }
}

/// Extending a fully valid batch by one edit applies that edit to the
/// batch's outcome, and the extended batch is valid exactly when the new
/// edit is.
pub proof fn lemma_batch_snoc(s: Seq<char>, edits: Seq<Edit>, e: Edit)
    ensures
        batch_valid(s, edits) ==> batch_applied(s, edits.push(e)) == (if edit_valid(
            batch_applied(s, edits),
            e,
        ) {
            edit_applied(batch_applied(s, edits), e)
        } else {
            batch_applied(s, edits)
        }),
        batch_valid(s, edits.push(e)) == (batch_valid(s, edits) && edit_valid(
            batch_applied(s, edits),
            e,
        )),
    decreases edits.len(),
{
    if edits.len() == 0 {
        assert(edits.push(e)[0] == e);
        assert(edits.push(e).drop_first() =~= Seq::<Edit>::empty());
        assert(batch_applied(s, edits) == s);
        assert(batch_valid(s, edits));
        if edit_valid(s, e) {
            assert(batch_applied(edit_applied(s, e), Seq::<Edit>::empty()) == edit_applied(s, e));
            assert(batch_applied(s, edits.push(e)) == edit_applied(s, e));
            assert(batch_valid(edit_applied(s, e), Seq::<Edit>::empty()));
            assert(batch_valid(s, edits.push(e)));
        } else {
            assert(batch_applied(s, edits.push(e)) == s);
            assert(!batch_valid(s, edits.push(e)));
        }
    } else {
        assert(edits.push(e)[0] == edits[0]);
        assert(edits.push(e).drop_first() =~= edits.drop_first().push(e));
        let s1 = edit_applied(s, edits[0]);
        lemma_batch_snoc(s1, edits.drop_first(), e);
        if edit_valid(s, edits[0]) {
            assert(batch_applied(s, edits.push(e)) == batch_applied(s1, edits.drop_first().push(e)));
            assert(batch_applied(s, edits) == batch_applied(s1, edits.drop_first()));
            assert(batch_valid(s, edits.push(e)) == batch_valid(s1, edits.drop_first().push(e)));
            assert(batch_valid(s, edits) == batch_valid(s1, edits.drop_first()));
        } else {
            assert(!batch_valid(s, edits));
            assert(!batch_valid(s, edits.push(e)));
        }
    }
}

/// When the edits up to `i` are valid but edit `i` is not valid against
/// their outcome, the batch stops there and is not valid as a whole.
pub proof fn lemma_batch_stops(s: Seq<char>, edits: Seq<Edit>, i: int)
    requires
        0 <= i < edits.len(),
        batch_valid(s, edits.take(i)),
        !edit_valid(batch_applied(s, edits.take(i)), edits[i]),
    ensures
        batch_applied(s, edits) == batch_applied(s, edits.take(i)),
        !batch_valid(s, edits),
    decreases i,
{
    if i == 0 {
        assert(edits.take(0) =~= Seq::<Edit>::empty());
    } else {
        assert(edits.take(i)[0] == edits[0]);
        let s1 = edit_applied(s, edits[0]);
        assert(edits.take(i).drop_first() =~= edits.drop_first().take(i - 1));
        assert(edits.drop_first()[i - 1] == edits[i]);
        lemma_batch_stops(s1, edits.drop_first(), i - 1);
    }
}

/// Law: applying two edits as a batch equals applying the first and then
/// the second, the second's line/column coordinates being interpreted
/// against the text the first produced.
pub proof fn lemma_edit_composition(s: Seq<char>, e1: Edit, e2: Edit)
    requires
        edit_valid(s, e1),
        edit_valid(edit_applied(s, e1), e2),
    ensures
        batch_valid(s, seq![e1, e2]),
        batch_applied(s, seq![e1, e2]) == edit_applied(edit_applied(s, e1), e2),
        e2.range matches Some(r2) ==> batch_applied(s, seq![e1, e2]) == ({
            let s1 = edit_applied(s, e1);
            s1.take(position_offset(s1, r2.start)) + e2.text@ + s1.subrange(
                position_offset(s1, r2.end),
                s1.len() as int,
            )
        }),
{
    let b = seq![e1, e2];
    let s1 = edit_applied(s, e1);
    assert(b.len() == 2 && b[0] == e1 && b[1] == e2);
    assert(b.drop_first() =~= seq![e2]);
    assert(seq![e2].len() == 1 && seq![e2][0] == e2);
    assert(seq![e2].drop_first() =~= Seq::<Edit>::empty());
    let s2 = edit_applied(s1, e2);
    assert(batch_applied(s2, Seq::<Edit>::empty()) == s2);
    assert(batch_valid(s2, Seq::<Edit>::empty()));
    assert(batch_applied(s1, seq![e2]) == s2);
    assert(batch_valid(s1, seq![e2]));
    assert(batch_applied(s, b) == batch_applied(s1, b.drop_first()));
    assert(batch_applied(s, b) == s2);
    if e2.range is Some {
        let r2 = e2.range->0;
        assert(s2 == s1.take(position_offset(s1, r2.start)) + e2.text@ + s1.subrange(
            position_offset(s1, r2.end),
            s1.len() as int,
        ));
    }
}

// ---------------------------------------------------------------------------
// Reading all lines back.
// ---------------------------------------------------------------------------
/// The first `n` lines of `s`, concatenated in order.
pub open spec fn lines_concat(s: Seq<char>, n: nat) -> Seq<char>
    decreases n,
{
    if n == 0 {
        Seq::empty()
    } else {
        lines_concat(s, (n - 1) as nat) + line_at(s, (n - 1) as nat)
    }
}

/// A text without line feeds to count has none at any index.
proof fn lemma_newline_count_zero_rev(s: Seq<char>)
    requires
        newline_count(s) == 0,
    ensures
        forall|k: int| 0 <= k < s.len() ==> s[k] != '\n',
    decreases s.len(),
{
    if s.len() > 0 {
        lemma_newline_count_zero_rev(s.drop_last());
        assert forall|k: int| 0 <= k < s.len() implies s[k] != '\n' by {
            if k < s.len() - 1 {
                assert(s[k] == s.drop_last()[k]);
            }
        }
    }
}

/// The first `n` lines tile the text exactly up to the start of line `n`.
proof fn lemma_lines_concat_take(s: Seq<char>, n: nat)
    ensures
        lines_concat(s, n) == s.take(line_start(s, n) as int),
    decreases n,
{
    if n == 0 {
        assert(s.take(0) =~= Seq::<char>::empty());
    } else {
        lemma_lines_concat_take(s, (n - 1) as nat);
        lemma_line_start_bounds(s, (n - 1) as nat);
        lemma_line_start_bounds(s, n);
        assert(s.take(line_start(s, n) as int) =~= s.take(line_start(s, (n - 1) as nat) as int)
            + line_at(s, (n - 1) as nat));
    }
}

/// Up to the number of line feeds, line `l` starts after exactly `l` of
/// them.
proof fn lemma_line_start_newlines(s: Seq<char>, l: nat)
    requires
        l <= newline_count(s),
    ensures
        line_start(s, l) <= s.len(),
        newline_count(s.take(line_start(s, l) as int)) == l,
    decreases l,
{
    if l == 0 {
        assert(s.take(0) =~= Seq::<char>::empty());
    } else {
        lemma_line_start_newlines(s, (l - 1) as nat);
        let i = line_start(s, (l - 1) as nat);
        lemma_line_end_from(s, i);
        let j = line_end_from(s, i);
        assert(s =~= s.take(i as int) + s.subrange(i as int, s.len() as int));
        lemma_newline_count_concat(s.take(i as int), s.subrange(i as int, s.len() as int));
        if !(j > i && s[j - 1] == '\n') {
            lemma_newline_count_zero(s.subrange(i as int, s.len() as int));
            assert(false);
        }
        assert(s.take(j as int) =~= s.take(i as int) + s.subrange(i as int, j as int));
        lemma_newline_count_concat(s.take(i as int), s.subrange(i as int, j as int));
    }
}

/// Law: reading every line of a text in order and concatenating the
/// results reproduces the text exactly.
pub proof fn lemma_line_round_trip(s: Seq<char>)
    ensures
        lines_concat(s, line_count(s)) == s,
{
    let nl = newline_count(s);
    lemma_line_start_newlines(s, nl);
    let i = line_start(s, nl);
    lemma_line_end_from(s, i);
    assert(s =~= s.take(i as int) + s.subrange(i as int, s.len() as int));
    lemma_newline_count_concat(s.take(i as int), s.subrange(i as int, s.len() as int));
    assert(newline_count(s.subrange(i as int, s.len() as int)) == 0);
    lemma_newline_count_zero_rev(s.subrange(i as int, s.len() as int));
    let j = line_end_from(s, i);
    if j > i && s[j - 1] == '\n' {
        assert(s.subrange(i as int, s.len() as int)[j - 1 - i] == s[j - 1]);
        assert(false);
    }
    assert(line_start(s, line_count(s)) == j);
    lemma_lines_concat_take(s, line_count(s));
    assert(s.take(s.len() as int) =~= s);
}

// ---------------------------------------------------------------------------
// The buffer itself.
// ---------------------------------------------------------------------------
/// The text of one open document, addressable both by flat character
/// offset and by line/column positions.
pub struct TextBuffer {
    chars: Vec<char>,
}

impl View for TextBuffer {
    type V = Seq<char>;

    closed spec fn view(&self) -> Seq<char> {
        self.chars@
    }
}

/// The offset just past the line beginning at `from`, found by scanning
/// for the next line feed.
fn scan_line_end(v: &Vec<char>, from: usize) -> (r: usize)
    requires
        from <= v@.len(),
    ensures
        r == line_end_from(v@, from as nat),
{
    let mut j = from;
    while j < v.len() && v[j] != '\n'
        invariant
            from <= j <= v@.len(),
            line_end_from(v@, from as nat) == line_end_from(v@, j as nat),
        decreases v@.len() - j,
    {
        proof {
            assert(line_end_from(v@, j as nat) == line_end_from(v@, j as nat + 1));
        }
        j = j + 1;
    }
    if j < v.len() {
        j + 1
    } else {
        j
    }
}

impl TextBuffer {
    /// A buffer holding exactly the given text.
    pub fn create(text: &str) -> (r: TextBuffer)
        ensures
            r@ == text@,
    {
        TextBuffer { chars: chars_of(text) }
    }

    /// The whole current text.
    pub fn content(&self) -> (r: String)
        ensures
            r@ == self@,
    {
        string_of(&self.chars)
    }

    /// The offset at which the given line starts, or `None` when the
    /// buffer has fewer lines.
    fn scan_line_start(&self, line: usize) -> (r: Option<usize>)
        ensures
            match r {
                Some(i) => (line as nat) < line_count(self@) && i == line_start(
                    self@,
                    line as nat,
                ) && i <= self@.len(),
                None => (line as nat) >= line_count(self@),
            },
    {
        let ghost s = self@;
        let mut l: usize = 0;
        let mut i: usize = 0;
        proof {
            assert(s.take(0) =~= Seq::<char>::empty());
        }
        while l < line
            invariant
                l <= line,
                i <= s.len(),
                s == self@,
                i as nat == line_start(s, l as nat),
                l as nat == newline_count(s.take(i as int)),
            decreases line - l,
        {
            let j = scan_line_end(&self.chars, i);
            proof {
                lemma_line_end_from(s, i as nat);
            }
            if j > i && self.chars[j - 1] == '\n' {
                proof {
                    assert(s.take(j as int) =~= s.take(i as int) + s.subrange(
                        i as int,
                        j as int,
                    ));
                    lemma_newline_count_concat(s.take(i as int), s.subrange(i as int, j as int));
                    assert(line_start(s, l as nat + 1) == line_end_from(s, line_start(s, l as nat)));
                }
                i = j;
                l = l + 1;
            } else {
                proof {
                    assert(s =~= s.take(i as int) + s.subrange(i as int, s.len() as int));
                    lemma_newline_count_concat(s.take(i as int), s.subrange(i as int, s.len() as int));
                    lemma_newline_count_zero(s.subrange(i as int, s.len() as int));
                    assert(newline_count(s) == l as nat);
                }
                return None;
            }
        }
        proof {
            assert(s =~= s.take(i as int) + s.subrange(i as int, s.len() as int));
            lemma_newline_count_concat(s.take(i as int), s.subrange(i as int, s.len() as int));
        }
        Some(i)
    }

    /// The content of the given line, terminator included, or
    /// `LineOutOfRange` when the buffer has fewer lines.
    pub fn line_content(&self, line: usize) -> (r: Result<String, CoreError>)
        ensures
            (line as nat) < line_count(self@) ==> (r matches Ok(c) && c@ == line_at(
                self@,
                line as nat,
            )),
            (line as nat) >= line_count(self@) ==> (r matches Err(e) && e is LineOutOfRange),
    {
        match self.scan_line_start(line) {
            None => Err(CoreError::LineOutOfRange),
            Some(i) => {
                let j = scan_line_end(&self.chars, i);
                proof {
                    lemma_line_end_from(self@, i as nat);
                    assert(line_start(self@, line as nat + 1) == line_end_from(
                        self@,
                        line_start(self@, line as nat),
                    ));
                }
                let mut out: Vec<char> = Vec::new();
                let mut k = i;
                proof {
                    assert(self@.subrange(i as int, i as int) =~= Seq::<char>::empty());
                }
                while k < j
                    invariant
                        i <= k <= j <= self@.len(),
                        out@ == self@.subrange(i as int, k as int),
                    decreases j - k,
                {
                    out.push(self.chars[k]);
                    proof {
                        assert(self@.subrange(i as int, k as int + 1) =~= self@.subrange(
                            i as int,
                            k as int,
                        ).push(self@[k as int]));
                    }
                    k = k + 1;
                }
                Ok(string_of(&out))
            },
        }
    }

    /// The flat offset that `p` addresses in the current text, or `None`
    /// when `p` lies outside it.
    fn position_offset_exec(&self, p: &Position) -> (r: Option<usize>)
        ensures
            match r {
                Some(o) => position_valid(self@, *p) && o as int == position_offset(self@, *p),
                None => !position_valid(self@, *p),
            },
    {
        match self.scan_line_start(p.line as usize) {
            None => None,
            Some(i) => {
                let j = scan_line_end(&self.chars, i);
                proof {
                    lemma_line_end_from(self@, i as nat);
                    assert(line_start(self@, p.line as nat + 1) == line_end_from(
                        self@,
                        line_start(self@, p.line as nat),
                    ));
                    assert(line_at(self@, p.line as nat).len() == j - i);
                }
                let c = p.character as usize;
                if c <= j - i {
                    Some(i + c)
                } else {
                    None
                }
            },
        }
    }

    /// Applies one edit. A rangeless edit replaces the whole text; a
    /// ranged edit removes the addressed span and inserts the replacement
    /// at its start, both offsets read off the current text. A malformed
    /// range leaves the buffer unchanged.
    pub fn apply_edit(&mut self, e: &Edit) -> (r: Result<(), CoreError>)
        ensures
            edit_valid(old(self)@, *e) ==> r is Ok && final(self)@ == edit_applied(
                old(self)@,
                *e,
            ),
            !edit_valid(old(self)@, *e) ==> (r matches Err(err) && err is MalformedEdit)
                && final(self)@ == old(self)@,
    {
        let has_range = match &e.range {
            Some(_) => true,
            None => false,
        };
        if !has_range {
            self.chars = chars_of(e.text.as_str());
            return Ok(());
        }
        let (start, end) = match &e.range {
            Some(range) => {
                let start = match self.position_offset_exec(&range.start) {
                    Some(o) => o,
                    None => {
                        return Err(CoreError::MalformedEdit);
                    },
                };
                let end = match self.position_offset_exec(&range.end) {
                    Some(o) => o,
                    None => {
                        return Err(CoreError::MalformedEdit);
                    },
                };
                (start, end)
            },
            None => {
                return Err(CoreError::MalformedEdit);
            },
        };
        if end < start {
            return Err(CoreError::MalformedEdit);
        }
        proof {
            lemma_position_offset_bounds(self@, e.range->0.end);
        }
        let mut out: Vec<char> = Vec::new();
        let mut k: usize = 0;
        proof {
            assert(self@.take(0) =~= Seq::<char>::empty());
        }
        while k < start
            invariant
                k <= start <= self@.len(),
                out@ == self@.take(k as int),
            decreases start - k,
        {
            out.push(self.chars[k]);
            proof {
                assert(self@.take(k as int + 1) =~= self@.take(k as int).push(self@[k as int]));
            }
            k = k + 1;
        }
        let t = chars_of(e.text.as_str());
        let mut m: usize = 0;
        proof {
            assert(t@.take(0) =~= Seq::<char>::empty());
            assert(out@ + t@.take(0) =~= out@);
        }
        let ghost prefix = self@.take(start as int);
        while m < t.len()
            invariant
                m <= t@.len(),
                out@ == prefix + t@.take(m as int),
            decreases t@.len() - m,
        {
            out.push(t[m]);
            proof {
                assert(t@.take(m as int + 1) =~= t@.take(m as int).push(t@[m as int]));
                assert(prefix + t@.take(m as int + 1) =~= (prefix + t@.take(m as int)).push(
                    t@[m as int],
                ));
            }
            m = m + 1;
        }
        proof {
            assert(t@.take(t@.len() as int) =~= t@);
        }
        let mut k2 = end;
        let ghost mid = prefix + t@;
        while k2 < self.chars.len()
            invariant
                end <= k2 <= self@.len(),
                out@ == mid + self@.subrange(end as int, k2 as int),
            decreases self@.len() - k2,
        {
            out.push(self.chars[k2]);
            proof {
                assert(self@.subrange(end as int, k2 as int + 1) =~= self@.subrange(
                    end as int,
                    k2 as int,
                ).push(self@[k2 as int]));
                assert(mid + self@.subrange(end as int, k2 as int + 1) =~= (mid + self@.subrange(
                    end as int,
                    k2 as int,
                )).push(self@[k2 as int]));
            }
            k2 = k2 + 1;
        }
        proof {
            assert(out@ == edit_applied(self@, *e));
        }
        self.chars = out;
        Ok(())
    }
}

} // verus!
