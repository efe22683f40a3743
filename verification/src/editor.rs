use vstd::prelude::*;

use crate::classify::CharClass;
use crate::editor_core::Core;
use crate::model::{lemma_scan_first_props, lemma_scan_last_props, scan_first, scan_last, CoreModel};
use crate::position::{Position, PositionError};
use crate::strings::string_from_chars;

verus! {

/// A pair of delimiter characters: an opening one and its closing partner.
#[derive(PartialEq, Eq, Structural, Debug, Clone, Copy)]
pub struct Paren {
    /// The character that opens a pair.
    pub open: char,
    /// The character that closes a pair.
    pub close: char,
}

/// A two-dimensional text editor: named editing operations composed from the
/// primitives of `Core`, which owns the text, the line index and the cursor.
#[derive(Debug)]
pub struct Editor {
    core: Core,
}

impl View for Editor {
    type V = CoreModel;

    closed spec fn view(&self) -> CoreModel {
        self.core@
    }
}

/// The offset of the partner of an opening delimiter: scanning forward from
/// `j`, every further opening character deepens the nesting by one, and the
/// first closing character met at depth zero is the partner.
pub open spec fn fwd_match(t: Seq<char>, j: int, depth: nat, open: char, close: char) -> Option<
    int,
>
    decreases t.len() - j,
        when j <= t.len()
{
    if j < 0 || j >= t.len() {
        None
    } else if t[j] == open {
        fwd_match(t, j + 1, depth + 1, open, close)
    } else if t[j] == close {
        if depth == 0 {
            Some(j)
        } else {
            fwd_match(t, j + 1, (depth - 1) as nat, open, close)
        }
    } else {
        fwd_match(t, j + 1, depth, open, close)
    }
}

/// The offset of the partner of a closing delimiter: the symmetric backward
/// scan.
pub open spec fn bwd_match(t: Seq<char>, j: int, depth: nat, open: char, close: char) -> Option<
    int,
>
    decreases j + 1,
        when j >= -1
{
    if j < 0 || j >= t.len() {
        None
    } else if t[j] == close {
        bwd_match(t, j - 1, depth + 1, open, close)
    } else if t[j] == open {
        if depth == 0 {
            Some(j)
        } else {
            bwd_match(t, j - 1, (depth - 1) as nat, open, close)
        }
    } else {
        bwd_match(t, j - 1, depth, open, close)
    }
}

/// What `match_pair` answers for a state: the partner of the delimiter under
/// the cursor, or nothing when the cursor is not on a delimiter. When the
/// opening and closing characters are equal, the character counts as
/// opening, so the forward scan never finds a partner.
pub open spec fn match_pair_spec(m: CoreModel, p: Paren) -> Option<int> {
    let n = m.cursor_offset();
    if m.text[n] == p.open {
        fwd_match(m.text, n + 1, 0, p.open, p.close)
    } else if m.text[n] == p.close {
        bwd_match(m.text, n - 1, 0, p.open, p.close)
    } else {
        None
    }
}

/// The state after deleting line `l` whole: every character of the line,
/// and, unless it is the last line, its terminating newline.
pub open spec fn delete_line_spec(m: CoreModel, l: int) -> CoreModel {
    let n = if l == m.line_count() - 1 {
        m.line_width(l)
    } else {
        m.line_width(l) + 1
    };
    m.deleted_n(l, 0, n as nat)
}

/// The state after deleting the `k` lines starting at line `start`, highest
/// line first.
pub open spec fn delete_lines_spec(m: CoreModel, start: int, k: nat) -> CoreModel
    decreases k,
{
    if k == 0 {
        m
    } else {
        delete_lines_spec(delete_line_spec(m, start + k - 1), start, (k - 1) as nat)
    }
}

/// Deleting a line keeps the state well-formed and removes at most one line
/// (exactly one when the line was not the last).
proof fn lemma_delete_line_spec_facts(m: CoreModel, l: int)
    requires
        m.wf(),
        0 <= l < m.line_count(),
    ensures
        delete_line_spec(m, l).wf(),
        m.line_count() - 1 <= delete_line_spec(m, l).line_count() <= m.line_count(),
{
    if l == m.line_count() - 1 {
        crate::model::lemma_deleted_n_within(m, l, m.line_width(l) as nat);
    } else {
        crate::model::lemma_deleted_n_whole_line(m, l);
    }
}

/// Deleting a block of lines, highest first, keeps the state well-formed and
/// removes at most one line per deletion.
proof fn lemma_delete_lines_spec_facts(m: CoreModel, start: int, k: nat)
    requires
        m.wf(),
        0 <= start,
        start + k <= m.line_count(),
    ensures
        delete_lines_spec(m, start, k).wf(),
        delete_lines_spec(m, start, k).line_count() >= m.line_count() - k,
    decreases k,
{
    if k > 0 {
        let m1 = delete_line_spec(m, start + k - 1);
        lemma_delete_line_spec_facts(m, start + k - 1);
        lemma_delete_lines_spec_facts(m1, start, (k - 1) as nat);
    }
}

/// Peeling the last-applied deletion: deleting `k + 1` lines from `start`
/// equals deleting the upper `k` lines and then line `start` itself.
proof fn lemma_delete_lines_spec_step(m: CoreModel, start: int, k: nat)
    requires
        k >= 1,
    ensures
        delete_lines_spec(m, start, k) == delete_line_spec(
            delete_lines_spec(m, start + 1, (k - 1) as nat),
            start,
        ),
    decreases k,
{
    if k == 1 {
        assert(delete_lines_spec(m, start, 1) == delete_lines_spec(
            delete_line_spec(m, start),
            start,
            0,
        ));
        assert(delete_lines_spec(m, start + 1, 0) == m);
    } else {
        let m1 = delete_line_spec(m, start + k - 1);
        lemma_delete_lines_spec_step(m1, start, (k - 1) as nat);
        assert(delete_lines_spec(m, start + 1, (k - 1) as nat) == delete_lines_spec(
            m1,
            start + 1,
            (k - 2) as nat,
        ));
    }
}

/// Lexicographic order on character sequences, by Unicode scalar value.
pub open spec fn lex_lt(a: Seq<char>, b: Seq<char>) -> bool
    decreases a.len(),
{
    if b.len() == 0 {
        false
    } else if a.len() == 0 {
        true
    } else if a.first() != b.first() {
        (a.first() as u32) < (b.first() as u32)
    } else {
        lex_lt(a.drop_first(), b.drop_first())
    }
}

/// The total order the lines are sorted by: their contents
/// lexicographically, ties broken by the line number, so that lines with
/// equal contents keep their relative order.
pub open spec fn key_lt(m: CoreModel, a: int, b: int) -> bool {
    lex_lt(m.line_text(a), m.line_text(b)) || (m.line_text(a) == m.line_text(b) && a < b)
}

/// Inserts line number `x` into an ascending sequence of line numbers, after
/// every entry below it in the sort order.
pub open spec fn insert_idx(m: CoreModel, x: int, s: Seq<int>) -> Seq<int>
    decreases s.len(),
{
    if s.len() == 0 {
        seq![x]
    } else if key_lt(m, s.first(), x) {
        seq![s.first()] + insert_idx(m, x, s.drop_first())
    } else {
        seq![x] + s
    }
}

/// Insertion sort of a sequence of line numbers under the sort order.
pub open spec fn isort_idx(m: CoreModel, s: Seq<int>) -> Seq<int>
    decreases s.len(),
{
    if s.len() == 0 {
        Seq::empty()
    } else {
        insert_idx(m, s.last(), isort_idx(m, s.drop_last()))
    }
}

/// The line numbers from `a` up to `b`, in order.
pub open spec fn idseq(a: int, b: int) -> Seq<int> {
    Seq::new(
        if b >= a {
            (b - a) as nat
        } else {
            0
        },
        |i: int| a + i,
    )
}

/// The order of the lines after sorting lines `[start, end)`: lines outside
/// the range keep their places, those inside are sorted.
pub open spec fn sorted_order(m: CoreModel, start: int, end: int) -> Seq<int> {
    idseq(0, start) + isort_idx(m, idseq(start, end)) + idseq(end, m.line_count())
}

/// Rows joined into one text, each row followed by a newline.
pub open spec fn joined(rows: Seq<Seq<char>>) -> Seq<char>
    decreases rows.len(),
{
    if rows.len() == 0 {
        Seq::empty()
    } else {
        joined(rows.drop_last()) + rows.last() + seq!['\n']
    }
}

/// The lexicographic order is total: sequences not ordered either way are
/// equal.
proof fn lemma_lex_lt_total(a: Seq<char>, b: Seq<char>)
    requires
        !lex_lt(a, b),
        !lex_lt(b, a),
    ensures
        a == b,
    decreases a.len(),
{
    if b.len() == 0 {
        assert(a.len() == 0);
        assert(a =~= b);
    } else if a.len() == 0 {
        assert(false);
    } else if a.first() != b.first() {
        assert((a.first() as u32) != (b.first() as u32)) by {
            vstd::utf8::char_u32_cast(a.first(), a.first() as u32);
            vstd::utf8::char_u32_cast(b.first(), b.first() as u32);
        }
        assert(false);
    } else {
        lemma_lex_lt_total(a.drop_first(), b.drop_first());
        assert(a =~= b) by {
            assert(a.drop_first() =~= b.drop_first());
            assert(forall|i: int|
                1 <= i < a.len() ==> a[i] == a.drop_first()[i - 1] && b[i] == b.drop_first()[i
                    - 1]);
        }
    }
}

/// Inserting grows a sequence by one entry.
proof fn lemma_insert_idx_len(m: CoreModel, x: int, s: Seq<int>)
    ensures
        insert_idx(m, x, s).len() == s.len() + 1,
    decreases s.len(),
{
    if s.len() > 0 && key_lt(m, s.first(), x) {
        lemma_insert_idx_len(m, x, s.drop_first());
    }
}

/// Sorting keeps the length.
pub proof fn lemma_isort_idx_len(m: CoreModel, s: Seq<int>)
    ensures
        isort_idx(m, s).len() == s.len(),
    decreases s.len(),
{
    if s.len() > 0 {
        lemma_isort_idx_len(m, s.drop_last());
        lemma_insert_idx_len(m, s.last(), isort_idx(m, s.drop_last()));
    }
}

/// Where an insertion lands: before the first entry not below the inserted
/// one.
proof fn lemma_insert_idx_at(m: CoreModel, x: int, s: Seq<int>, j: int)
    requires
        0 <= j <= s.len(),
        forall|p: int| 0 <= p < j ==> key_lt(m, #[trigger] s[p], x),
        j < s.len() ==> !key_lt(m, s[j], x),
    ensures
        insert_idx(m, x, s) == s.take(j) + seq![x] + s.skip(j),
    decreases j,
{
    if j == 0 {
        assert(insert_idx(m, x, s) =~= s.take(0) + seq![x] + s.skip(0));
    } else {
        assert(key_lt(m, s[0], x));
        let s1 = s.drop_first();
        assert(forall|p: int| 0 <= p < j - 1 ==> #[trigger] s1[p] == s[p + 1]);
        lemma_insert_idx_at(m, x, s1, j - 1);
        assert(insert_idx(m, x, s) == seq![s.first()] + (s1.take(j - 1) + seq![x] + s1.skip(j
            - 1)));
        assert(insert_idx(m, x, s) =~= s.take(j) + seq![x] + s.skip(j));
    }
}

/// An inserted sequence holds the new entry and everything it held before.
proof fn lemma_insert_idx_contains(m: CoreModel, x: int, s: Seq<int>, y: int)
    requires
        s.contains(y) || y == x,
    ensures
        insert_idx(m, x, s).contains(y),
    decreases s.len(),
{
    if s.len() == 0 {
        assert(insert_idx(m, x, s)[0] == x);
    } else if key_lt(m, s.first(), x) {
        let r = insert_idx(m, x, s);
        if y == s.first() {
            assert(r[0] == y);
        } else {
            if s.contains(y) {
                let i = choose|i: int| 0 <= i < s.len() && s[i] == y;
                assert(i >= 1);
                assert(s.drop_first()[i - 1] == y);
                assert(s.drop_first().contains(y));
            }
            lemma_insert_idx_contains(m, x, s.drop_first(), y);
            let r1 = insert_idx(m, x, s.drop_first());
            let i2 = choose|i: int| 0 <= i < r1.len() && r1[i] == y;
            assert(r[i2 + 1] == y);
        }
    } else {
        let r = insert_idx(m, x, s);
        if y == x {
            assert(r[0] == y);
        } else {
            let i = choose|i: int| 0 <= i < s.len() && s[i] == y;
            assert(r[i + 1] == y);
        }
    }
}

/// A sorted sequence holds everything the unsorted one held.
pub proof fn lemma_isort_idx_contains(m: CoreModel, s: Seq<int>, y: int)
    requires
        s.contains(y),
    ensures
        isort_idx(m, s).contains(y),
    decreases s.len(),
{
    if s.len() > 0 {
        if y == s.last() {
            lemma_insert_idx_contains(m, s.last(), isort_idx(m, s.drop_last()), y);
        } else {
            let i = choose|i: int| 0 <= i < s.len() && s[i] == y;
            assert(i < s.len() - 1);
            assert(s.drop_last()[i] == y);
            assert(s.drop_last().contains(y));
            lemma_isort_idx_contains(m, s.drop_last(), y);
            lemma_insert_idx_contains(m, s.last(), isort_idx(m, s.drop_last()), y);
        }
    }
}

/// Compares two slices of characters lexicographically, by Unicode scalar
/// value.
fn lex_lt_slices(a: &[char], b: &[char]) -> (r: bool)
    ensures
        r == lex_lt(a@, b@),
{
    let alen = a.len();
    let blen = b.len();
    let mut i: usize = 0;
    proof {
        assert(a@.skip(0) =~= a@);
        assert(b@.skip(0) =~= b@);
    }
    while i < alen && i < blen
        invariant
            i <= alen,
            i <= blen,
            alen == a@.len(),
            blen == b@.len(),
            lex_lt(a@, b@) == lex_lt(a@.skip(i as int), b@.skip(i as int)),
        decreases alen - i,
    {
        let x = a[i];
        let y = b[i];
        proof {
            assert(a@.skip(i as int).first() == a@[i as int]);
            assert(b@.skip(i as int).first() == b@[i as int]);
            assert(a@.skip(i as int).drop_first() =~= a@.skip(i as int + 1));
            assert(b@.skip(i as int).drop_first() =~= b@.skip(i as int + 1));
        }
        if x != y {
            return (x as u32) < (y as u32);
        }
        i = i + 1;
    }
    proof {
        assert(a@.skip(i as int).len() == alen - i);
        assert(b@.skip(i as int).len() == blen - i);
    }
    alen < blen
}

impl Editor {
    /// Creates a new `Editor` from an initial text and an initial cursor.
    /// Reports an error, rather than clamping, when the initial position
    /// does not exist in the text.
    pub fn new(buffer: &str, line: usize, column: usize) -> (r: Result<Editor, PositionError>)
        ensures
            ({
                let cm = crate::model::canonical(buffer@, line as int, column as int);
                &&& (line as int >= cm.line_count() ==> r == Err::<Editor, PositionError>(
                    PositionError::LineOutOfRange(line),
                ))
                &&& ((line as int) < cm.line_count() && (column as int) > cm.line_width(
                    line as int,
                ) ==> r == Err::<Editor, PositionError>(PositionError::ColumnOutOfRange(column)))
                &&& (cm.pos_ok(line as int, column as int) ==> r is Ok && r->Ok_0@ == cm
                    && cm.wf())
            }),
    {
        match Core::new(buffer, line, column) {
            Ok(core) => Ok(Editor { core }),
            Err(e) => Err(e),
        }
    }

    /// Read-only access to the text.
    pub fn buffer(&self) -> (r: &[char])
        ensures
            r@ == self@.text,
    {
        self.core.buffer()
    }

    /// The text as a `String`.
    pub fn buffer_as_str(&self) -> (r: String)
        ensures
            r@ == self@.text,
    {
        string_from_chars(self.core.buffer())
    }

    /// The line of the cursor.
    pub fn line(&self) -> (r: usize)
        ensures
            r as int == self@.line,
    {
        self.core.line()
    }

    /// The column of the cursor.
    pub fn column(&self) -> (r: usize)
        ensures
            r as int == self@.col,
    {
        self.core.column()
    }

    /// The number of lines of the buffer.
    pub fn line_count(&self) -> (r: usize)
        ensures
            r as int == self@.line_count(),
    {
        self.core.line_count()
    }

    /// The number of characters of line `n`; `None` when there is no such
    /// line.
    pub fn line_width(&self, n: usize) -> (r: Option<usize>)
        requires
            self@.wf(),
        ensures
            r == (if (n as int) < self@.line_count() {
                Some(self@.line_width(n as int) as usize)
            } else {
                None::<usize>
            }),
            r matches Some(v) ==> v as int == self@.line_width(n as int) && (n as int)
                < self@.line_count(),
    {
        self.core.line_width(n)
    }

    /// The contents of line `line`, its terminating newline excluded;
    /// `None` when there is no such line.
    pub fn line_buffer(&self, line: usize) -> (r: Option<&[char]>)
        requires
            self@.wf(),
        ensures
            (line as int) < self@.line_count() <==> r is Some,
            r matches Some(s) ==> s@ == self@.text.subrange(
                self@.line_start(line as int),
                self@.ends[line as int],
            ),
    {
        if self.line_count() <= line {
            return None;
        }
        let beginning: usize;
        match self.core.offset(line, 0) {
            Some(v) => {
                beginning = v;
            },
            None => {
                proof {
                    assert(false);
                }
                return None;
            },
        }
        let w: usize;
        match self.core.line_width(line) {
            Some(v) => {
                w = v;
            },
            None => {
                proof {
                    assert(false);
                }
                return None;
            },
        }
        let end: usize;
        match self.core.offset(line, w) {
            Some(v) => {
                end = v;
            },
            None => {
                proof {
                    assert(false);
                }
                return None;
            },
        }
        let b = self.core.buffer();
        proof {
            assert(self@.ends[line as int] <= self@.text.len());
            assert(line as int >= 1 ==> self@.ends[line as int - 1] < self@.ends[line as int]);
            assert(self@.pos_ok(line as int, 0));
            assert(beginning as int == self@.line_start(line as int));
            assert(self@.pos_ok(line as int, w as int));
            assert(end as int == self@.ends[line as int]);
            assert(beginning as int <= end as int <= b@.len());
        }
        Some(&b[beginning..end])
    }

    /// The contents of the lines of `range`, from the first character of
    /// `range.start` through the last character of `range.end - 1`, the
    /// final newline excluded.
    pub fn line_buffer_range(&self, range: core::ops::Range<usize>) -> (r: Option<&[char]>)
        requires
            self@.wf(),
            range.start < range.end,
            (range.end as int) <= self@.line_count(),
        ensures
            r matches Some(s) ==> s@ == self@.text.subrange(
                self@.line_start(range.start as int),
                self@.ends[range.end as int - 1],
            ),
            r is Some,
    {
        let beginning: usize;
        match self.core.offset(range.start, 0) {
            Some(v) => {
                beginning = v;
            },
            None => {
                proof {
                    assert(false);
                }
                return None;
            },
        }
        let w: usize;
        match self.core.line_width(range.end - 1) {
            Some(v) => {
                w = v;
            },
            None => {
                proof {
                    assert(false);
                }
                return None;
            },
        }
        let end: usize;
        match self.core.offset(range.end - 1, w) {
            Some(v) => {
                end = v;
            },
            None => {
                proof {
                    assert(false);
                }
                return None;
            },
        }
        let b = self.core.buffer();
        proof {
            assert(self@.ends[range.end as int - 1] <= self@.text.len());
            if range.start as int <= range.end as int - 1 - 1 {
                assert(self@.ends[range.start as int] <= self@.ends[range.end as int - 2]);
            }
            assert(self@.line_start(range.start as int) <= self@.ends[range.end as int - 1]) by {
                if range.start as int >= 1 {
                    assert(self@.ends[range.start as int - 1] < self@.ends[range.end as int - 1]
                        || range.start as int - 1 == range.end as int - 1);
                }
            }
            assert(range.end as int - 1 >= 1 ==> self@.ends[range.end as int - 2] < self@.ends[
                range.end as int - 1]);
            assert(beginning as int <= end as int <= b@.len());
        }
        Some(&b[beginning..end])
    }

    /// The contents of the buffer between two positions.
    pub fn buffer_range(&self, range: core::ops::Range<Position>) -> (r: Option<&[char]>)
        requires
            self@.wf(),
            self@.pos_ok(range.start.line as int, range.start.column as int),
            self@.pos_ok(range.end.line as int, range.end.column as int),
            self@.offset_of(range.start.line as int, range.start.column as int)
                <= self@.offset_of(range.end.line as int, range.end.column as int),
        ensures
            r matches Some(s) ==> s@ == self@.text.subrange(
                self@.offset_of(range.start.line as int, range.start.column as int),
                self@.offset_of(range.end.line as int, range.end.column as int),
            ),
            r is Some,
    {
        let s: usize;
        match self.offset_position(range.start) {
            Some(v) => {
                s = v;
            },
            None => {
                proof {
                    assert(false);
                }
                return None;
            },
        }
        let e: usize;
        match self.offset_position(range.end) {
            Some(v) => {
                e = v;
            },
            None => {
                proof {
                    assert(false);
                }
                return None;
            },
        }
        let b = self.core.buffer();
        proof {
            assert(self@.ends[range.end.line as int] <= self@.text.len());
            assert(range.end.line as int >= 1 ==> self@.ends[range.end.line as int - 1]
                < self@.ends[range.end.line as int]);
            assert(s as int <= e as int <= b@.len());
        }
        Some(&b[s..e])
    }

    /// The absolute codepoint offset of a position; `None` when the position
    /// does not exist in the buffer.
    pub fn offset_position(&self, p: Position) -> (r: Option<usize>)
        requires
            self@.wf(),
        ensures
            r == (if self@.pos_ok(p.line as int, p.column as int) {
                Some(self@.offset_of(p.line as int, p.column as int) as usize)
            } else {
                None::<usize>
            }),
            r matches Some(v) ==> v as int == self@.offset_of(p.line as int, p.column as int)
                && self@.pos_ok(p.line as int, p.column as int),
    {
        self.core.offset(p.line, p.column)
    }

    /// The position of the start of the next keyword.
    pub fn next_keyword_position(&self) -> (r: Option<Position>)
        requires
            self@.wf(),
        ensures
            r == self@.next_position_spec(CharClass::Keyword),
    {
        self.core.next_keyword_position()
    }

    /// The position of the start of the previous keyword.
    pub fn previous_keyword_position(&self) -> (r: Option<Position>)
        requires
            self@.wf(),
        ensures
            r == self@.previous_position_spec(CharClass::Keyword),
    {
        self.core.previous_keyword_position()
    }

    /// The position of the start of the next symbol.
    pub fn next_symbol_position(&self) -> (r: Option<Position>)
        requires
            self@.wf(),
        ensures
            r == self@.next_position_spec(CharClass::Symbol),
    {
        self.core.next_symbol_position()
    }

    /// The position of the start of the previous symbol.
    pub fn previous_symbol_position(&self) -> (r: Option<Position>)
        requires
            self@.wf(),
        ensures
            r == self@.previous_position_spec(CharClass::Symbol),
    {
        self.core.previous_symbol_position()
    }

    /// The position of the end of the next keyword.
    pub fn next_keyword_end_position(&self) -> (r: Option<Position>)
        requires
            self@.wf(),
        ensures
            r == self@.next_end_position_spec(CharClass::Keyword),
    {
        self.core.next_keyword_end_position()
    }

    /// The position of the end of the previous keyword.
    pub fn previous_keyword_end_position(&self) -> (r: Option<Position>)
        requires
            self@.wf(),
        ensures
            r == self@.previous_end_position_spec(CharClass::Keyword),
    {
        self.core.previous_keyword_end_position()
    }

    /// The position of the end of the next symbol.
    pub fn next_symbol_end_position(&self) -> (r: Option<Position>)
        requires
            self@.wf(),
        ensures
            r == self@.next_end_position_spec(CharClass::Symbol),
    {
        self.core.next_symbol_end_position()
    }

    /// The position of the end of the previous symbol.
    pub fn previous_symbol_end_position(&self) -> (r: Option<Position>)
        requires
            self@.wf(),
        ensures
            r == self@.previous_end_position_spec(CharClass::Symbol),
    {
        self.core.previous_symbol_end_position()
    }

    /// One position past the end of the next keyword.
    pub fn after_keyword_position(&self) -> (r: Option<Position>)
        requires
            self@.wf(),
        ensures
            r == self@.after_position_spec(CharClass::Keyword),
    {
        self.core.after_keyword_position()
    }

    /// One position before the start of the previous keyword.
    pub fn before_keyword_position(&self) -> (r: Option<Position>)
        requires
            self@.wf(),
        ensures
            r == self@.before_position_spec(CharClass::Keyword),
    {
        self.core.before_keyword_position()
    }

    /// One position past the end of the next symbol.
    pub fn after_symbol_position(&self) -> (r: Option<Position>)
        requires
            self@.wf(),
        ensures
            r == self@.after_position_spec(CharClass::Symbol),
    {
        self.core.after_symbol_position()
    }

    /// One position before the start of the previous symbol.
    pub fn before_symbol_position(&self) -> (r: Option<Position>)
        requires
            self@.wf(),
        ensures
            r == self@.before_position_spec(CharClass::Symbol),
    {
        self.core.before_symbol_position()
    }

    /// The column, on the cursor's line, of the first occurrence of `ch` at
    /// or after the cursor; `None` when the rest of the line has none.
    pub fn search_character(&self, ch: char) -> (r: Option<usize>)
        requires
            self@.wf(),
        ensures
            r == ({
                let found = scan_first(
                    self@.text,
                    self@.cursor_offset(),
                    CharClass::Exactly(ch),
                    true,
                );
                match found {
                    Some(j) => if j < self@.ends[self@.line] {
                        Some((j - self@.line_start(self@.line)) as usize)
                    } else {
                        None::<usize>
                    },
                    None => None::<usize>,
                }
            }),
    {
        let cur = self.core.current_offset();
        proof {
            assert(self@.ends[self@.line] <= self@.text.len());
        }
        let found = self.core.scan_forward(cur, CharClass::Exactly(ch), true);
        let ls: usize;
        match self.core.offset(self.core.line(), 0) {
            Some(v) => {
                ls = v;
            },
            None => {
                proof {
                    assert(false);
                }
                return None;
            },
        }
        let w = self.core.current_line_width();
        let le: usize;
        match self.core.offset(self.core.line(), w) {
            Some(v) => {
                le = v;
            },
            None => {
                proof {
                    assert(false);
                }
                return None;
            },
        }
        proof {
            assert(le as int == self@.ends[self@.line]);
        }
        match found {
            None => None,
            Some(j) => {
                proof {
                    lemma_scan_first_props(self@.text, cur as int, CharClass::Exactly(ch), true);
                }
                if j < le {
                    Some(j - ls)
                } else {
                    None
                }
            },
        }
    }

    /// The column, on the cursor's line, of the last occurrence of `ch`
    /// before the cursor; `None` when that part of the line has none.
    pub fn rsearch_character(&self, ch: char) -> (r: Option<usize>)
        requires
            self@.wf(),
        ensures
            r == ({
                let found = scan_last(
                    self@.text,
                    self@.cursor_offset() - 1,
                    CharClass::Exactly(ch),
                    true,
                );
                match found {
                    Some(j) => if j >= self@.line_start(self@.line) {
                        Some((j - self@.line_start(self@.line)) as usize)
                    } else {
                        None::<usize>
                    },
                    None => None::<usize>,
                }
            }),
    {
        let cur = self.core.current_offset();
        proof {
            assert(self@.ends[self@.line] <= self@.text.len());
        }
        let found = self.core.scan_back(cur, CharClass::Exactly(ch), true);
        let ls: usize;
        match self.core.offset(self.core.line(), 0) {
            Some(v) => {
                ls = v;
            },
            None => {
                proof {
                    assert(false);
                }
                return None;
            },
        }
        match found {
            None => None,
            Some(j) => {
                if j >= ls {
                    Some(j - ls)
                } else {
                    None
                }
            },
        }
    }

    /// The partner of the round parenthesis under the cursor.
    pub fn match_paren(&self) -> (r: Option<usize>)
        requires
            self@.wf(),
            self@.cursor_offset() < self@.text.len(),
        ensures
            r == match match_pair_spec(self@, Paren { open: '(', close: ')' }) {
                None => None::<usize>,
                Some(j) => Some(j as usize),
            },
    {
        self.match_pair(Paren { open: '(', close: ')' })
    }

    /// The offset of the partner of the delimiter under the cursor: an
    /// opening character is matched by a nesting-aware forward scan, a
    /// closing one by the symmetric backward scan, and any other character
    /// answers `None`. The cursor must sit on a character. When `p.open`
    /// equals `p.close` the character under the cursor counts as opening,
    /// and the forward scan finds no partner.
    pub fn match_pair(&self, p: Paren) -> (r: Option<usize>)
        requires
            self@.wf(),
            self@.cursor_offset() < self@.text.len(),
        ensures
            r == match match_pair_spec(self@, p) {
                None => None::<usize>,
                Some(j) => Some(j as usize),
            },
    {
        let n = self.core.current_offset();
        let b = self.core.buffer();
        let x = b[n];
        let len = b.len();
        if x == p.open {
            let mut depth: usize = 0;
            let mut j = n + 1;
            while j < len
                invariant
                    n < j <= len,
                    len == self@.text.len(),
                    b@ == self@.text,
                    n as int == self@.cursor_offset(),
                    self@.text[n as int] == p.open,
                    depth <= j - n - 1,
                    fwd_match(self@.text, n + 1 as int, 0, p.open, p.close) == fwd_match(
                        self@.text,
                        j as int,
                        depth as nat,
                        p.open,
                        p.close,
                    ),
                decreases len - j,
            {
                let c = b[j];
                if c == p.open {
                    depth = depth + 1;
                } else if c == p.close {
                    if depth == 0 {
                        return Some(j);
                    }
                    depth = depth - 1;
                }
                j = j + 1;
            }
            None
        } else if x == p.close {
            let mut depth: usize = 0;
            let mut j = n;
            while j > 0
                invariant
                    j <= n,
                    n < self@.text.len(),
                    b@ == self@.text,
                    n as int == self@.cursor_offset(),
                    self@.text[n as int] != p.open,
                    self@.text[n as int] == p.close,
                    depth <= n - j,
                    bwd_match(self@.text, n - 1 as int, 0, p.open, p.close) == bwd_match(
                        self@.text,
                        j as int - 1,
                        depth as nat,
                        p.open,
                        p.close,
                    ),
                decreases j,
            {
                j = j - 1;
                let c = b[j];
                if c == p.close {
                    depth = depth + 1;
                } else if c == p.open {
                    if depth == 0 {
                        return Some(j);
                    }
                    depth = depth - 1;
                }
            }
            None
        } else {
            None
        }
    }

    /// Moves the cursor `n` columns rightward, stopping at the last column.
    pub fn move_right(&mut self, n: usize)
        requires
            old(self)@.wf(),
        ensures
            ({
                let w = old(self)@.line_width(old(self)@.line);
                &&& final(self)@.text == old(self)@.text
                &&& final(self)@.ends == old(self)@.ends
                &&& final(self)@.line == old(self)@.line
                &&& final(self)@.col == if old(self)@.col + n as int >= w {
                    w
                } else {
                    old(self)@.col + n as int
                }
            }),
            final(self)@.wf(),
    {
        self.core.move_right(n);
    }

    /// Moves the cursor `n` columns leftward, stopping at the first column.
    pub fn move_left(&mut self, n: usize)
        requires
            old(self)@.wf(),
        ensures
            final(self)@.text == old(self)@.text,
            final(self)@.ends == old(self)@.ends,
            final(self)@.line == old(self)@.line,
            final(self)@.col == if old(self)@.col < n as int {
                0
            } else {
                old(self)@.col - n as int
            },
            final(self)@.wf(),
    {
        self.core.move_left(n);
    }

    /// Moves the cursor `n` lines upward, clamping the column to the new
    /// line's width.
    pub fn move_up(&mut self, n: usize)
        requires
            old(self)@.wf(),
        ensures
            ({
                let l2 = if old(self)@.line < n as int {
                    0
                } else {
                    old(self)@.line - n as int
                };
                let w = old(self)@.line_width(l2);
                &&& final(self)@.text == old(self)@.text
                &&& final(self)@.ends == old(self)@.ends
                &&& final(self)@.line == l2
                &&& final(self)@.col == if w < old(self)@.col {
                    w
                } else {
                    old(self)@.col
                }
            }),
            final(self)@.wf(),
    {
        self.core.move_up(n);
    }

    /// Moves the cursor `n` lines downward, clamping the column to the new
    /// line's width.
    pub fn move_down(&mut self, n: usize)
        requires
            old(self)@.wf(),
        ensures
            ({
                let l2 = if old(self)@.line + n as int >= old(self)@.line_count() {
                    old(self)@.line_count() - 1
                } else {
                    old(self)@.line + n as int
                };
                let w = old(self)@.line_width(l2);
                &&& final(self)@.text == old(self)@.text
                &&& final(self)@.ends == old(self)@.ends
                &&& final(self)@.line == l2
                &&& final(self)@.col == if w < old(self)@.col {
                    w
                } else {
                    old(self)@.col
                }
            }),
            final(self)@.wf(),
    {
        self.core.move_down(n);
    }

    /// Moves the cursor to the beginning of its line.
    pub fn move_to_beginning(&mut self)
        requires
            old(self)@.wf(),
        ensures
            final(self)@.text == old(self)@.text,
            final(self)@.ends == old(self)@.ends,
            final(self)@.line == old(self)@.line,
            final(self)@.col == 0,
            final(self)@.wf(),
    {
        self.set_column(0);
    }

    /// Moves the cursor to the end of its line: the slot past its last
    /// character.
    pub fn move_to_end(&mut self)
        requires
            old(self)@.wf(),
        ensures
            final(self)@.text == old(self)@.text,
            final(self)@.ends == old(self)@.ends,
            final(self)@.line == old(self)@.line,
            final(self)@.col == old(self)@.line_width(old(self)@.line),
            final(self)@.wf(),
    {
        let width = self.core.current_line_width();
        self.set_column(width);
    }

    /// Moves the cursor to the beginning of the first line.
    pub fn move_to_beginning_of_first_line(&mut self)
        requires
            old(self)@.wf(),
        ensures
            final(self)@.text == old(self)@.text,
            final(self)@.ends == old(self)@.ends,
            final(self)@.line == 0,
            final(self)@.col == 0,
            final(self)@.wf(),
    {
        self.set_column(0);
        self.set_line(0);
    }

    /// Moves the cursor to the beginning of the last line.
    pub fn move_to_beginning_of_last_line(&mut self)
        requires
            old(self)@.wf(),
        ensures
            final(self)@.text == old(self)@.text,
            final(self)@.ends == old(self)@.ends,
            final(self)@.line == old(self)@.line_count() - 1,
            final(self)@.col == 0,
            final(self)@.wf(),
    {
        self.set_column(0);
        let lines = self.line_count();
        self.set_line(lines - 1);
    }

    /// Moves the cursor to the beginning of the middle line; of two middle
    /// lines, the upper one.
    pub fn move_to_beginning_of_middle_line(&mut self)
        requires
            old(self)@.wf(),
        ensures
            ({
                let cnt = old(self)@.line_count();
                let mid = (if cnt % 2 == 0 {
                    cnt - 1
                } else {
                    cnt
                }) / 2;
                &&& final(self)@.text == old(self)@.text
                &&& final(self)@.ends == old(self)@.ends
                &&& final(self)@.line == mid
                &&& final(self)@.col == 0
            }),
            final(self)@.wf(),
    {
        self.set_column(0);
        let mut lines = self.line_count();
        if lines % 2 == 0 {
            lines = lines - 1;
        }
        self.set_line(lines / 2);
    }

    /// Moves the cursor to the beginning of the next keyword, when there is
    /// one.
    pub fn move_to_beginning_of_next_keyword(&mut self)
        requires
            old(self)@.wf(),
        ensures
            final(self)@.text == old(self)@.text,
            final(self)@.ends == old(self)@.ends,
            ({
                match old(self)@.next_position_spec(CharClass::Keyword) {
                    None => final(self)@.line == old(self)@.line && final(self)@.col == old(
                        self,
                    )@.col,
                    Some(p) => final(self)@.line == p.line as int && final(self)@.col
                        == p.column as int,
                }
            }),
            final(self)@.wf(),
    {
        let pos = self.core.next_position(CharClass::Keyword);
        if let Some(pos) = pos {
            self.set_line(pos.line);
            self.set_column(pos.column);
        }
    }

    /// Moves the cursor to the beginning of the previous keyword, when there
    /// is one.
    pub fn move_to_beginning_of_previous_keyword(&mut self)
        requires
            old(self)@.wf(),
        ensures
            final(self)@.text == old(self)@.text,
            final(self)@.ends == old(self)@.ends,
            ({
                match old(self)@.previous_position_spec(CharClass::Keyword) {
                    None => final(self)@.line == old(self)@.line && final(self)@.col == old(
                        self,
                    )@.col,
                    Some(p) => final(self)@.line == p.line as int && final(self)@.col
                        == p.column as int,
                }
            }),
            final(self)@.wf(),
    {
        let pos = self.core.previous_position(CharClass::Keyword);
        if let Some(pos) = pos {
            self.set_line(pos.line);
            self.set_column(pos.column);
        }
    }

    /// Moves the cursor to the first non-blank character of its line, when
    /// the line has one.
    pub fn move_to_beginning_of_non_blank(&mut self)
        requires
            old(self)@.wf(),
        ensures
            final(self)@.text == old(self)@.text,
            final(self)@.ends == old(self)@.ends,
            final(self)@.line == old(self)@.line,
            ({
                let found = scan_first(
                    old(self)@.text,
                    old(self)@.line_start(old(self)@.line),
                    CharClass::Blank,
                    false,
                );
                match found {
                    Some(j) => if j < old(self)@.ends[old(self)@.line] {
                        final(self)@.col == j - old(self)@.line_start(old(self)@.line)
                    } else {
                        final(self)@.col == old(self)@.col
                    },
                    None => final(self)@.col == old(self)@.col,
                }
            }),
            final(self)@.wf(),
    {
        let pos = self.first_non_blank();
        if let Some(pos) = pos {
            self.set_column(pos);
        }
    }

    /// The column of the first character of the cursor's line that is not
    /// whitespace; `None` when the line is all whitespace.
    fn first_non_blank(&self) -> (r: Option<usize>)
        requires
            self@.wf(),
        ensures
            ({
                let found = scan_first(
                    self@.text,
                    self@.line_start(self@.line),
                    CharClass::Blank,
                    false,
                );
                &&& (r is None <==> match found {
                    Some(j) => j >= self@.ends[self@.line],
                    None => true,
                })
                &&& (r matches Some(c) ==> found matches Some(j) && j
                    < self@.ends[self@.line] && c as int == j - self@.line_start(self@.line))
            }),
            r matches Some(c) ==> c as int <= self@.line_width(self@.line),
    {
        let ls: usize;
        match self.core.offset(self.core.line(), 0) {
            Some(v) => {
                ls = v;
            },
            None => {
                proof {
                    assert(false);
                }
                return None;
            },
        }
        let w = self.core.current_line_width();
        let le: usize;
        match self.core.offset(self.core.line(), w) {
            Some(v) => {
                le = v;
            },
            None => {
                proof {
                    assert(false);
                }
                return None;
            },
        }
        proof {
            assert(self@.ends[self@.line] <= self@.text.len());
            assert(le as int == self@.ends[self@.line]);
        }
        let found = self.core.scan_forward(ls, CharClass::Blank, false);
        match found {
            None => None,
            Some(j) => {
                proof {
                    lemma_scan_first_props(self@.text, ls as int, CharClass::Blank, false);
                }
                if j < le {
                    Some(j - ls)
                } else {
                    None
                }
            },
        }
    }

    /// Moves the cursor one column past the last non-blank character of its
    /// line, when the line has one.
    pub fn move_to_end_of_non_blank(&mut self)
        requires
            old(self)@.wf(),
        ensures
            final(self)@.text == old(self)@.text,
            final(self)@.ends == old(self)@.ends,
            final(self)@.line == old(self)@.line,
            ({
                let found = scan_last(
                    old(self)@.text,
                    old(self)@.ends[old(self)@.line] - 1,
                    CharClass::Blank,
                    false,
                );
                match found {
                    Some(j) => if j >= old(self)@.line_start(old(self)@.line) {
                        final(self)@.col == j - old(self)@.line_start(old(self)@.line) + 1
                    } else {
                        final(self)@.col == old(self)@.col
                    },
                    None => final(self)@.col == old(self)@.col,
                }
            }),
            final(self)@.wf(),
    {
        let pos = self.last_non_blank();
        if let Some(pos) = pos {
            self.set_column(pos);
        }
    }

    /// One past the column of the last character of the cursor's line that
    /// is not whitespace; `None` when the line is all whitespace.
    fn last_non_blank(&self) -> (r: Option<usize>)
        requires
            self@.wf(),
        ensures
            ({
                let found = scan_last(
                    self@.text,
                    self@.ends[self@.line] - 1,
                    CharClass::Blank,
                    false,
                );
                &&& (r is None <==> match found {
                    Some(j) => j < self@.line_start(self@.line),
                    None => true,
                })
                &&& (r matches Some(c) ==> found matches Some(j) && j >= self@.line_start(
                    self@.line,
                ) && c as int == j - self@.line_start(self@.line) + 1)
            }),
            r matches Some(c) ==> c as int <= self@.line_width(self@.line),
    {
        let ls: usize;
        match self.core.offset(self.core.line(), 0) {
            Some(v) => {
                ls = v;
            },
            None => {
                proof {
                    assert(false);
                }
                return None;
            },
        }
        let w = self.core.current_line_width();
        let le: usize;
        match self.core.offset(self.core.line(), w) {
            Some(v) => {
                le = v;
            },
            None => {
                proof {
                    assert(false);
                }
                return None;
            },
        }
        proof {
            assert(self@.ends[self@.line] <= self@.text.len());
            assert(le as int == self@.ends[self@.line]);
        }
        let found = self.core.scan_back(le, CharClass::Blank, false);
        match found {
            None => None,
            Some(j) => {
                proof {
                    lemma_scan_last_props(self@.text, le as int - 1, CharClass::Blank, false);
                }
                if j >= ls {
                    Some(j - ls + 1)
                } else {
                    None
                }
            },
        }
    }

    /// Moves the cursor to line `n`, clamping the column to the new line's
    /// width; out-of-range lines are ignored.
    pub fn set_line(&mut self, n: usize)
        requires
            old(self)@.wf(),
        ensures
            ({
                let l2 = if (n as int) < old(self)@.line_count() {
                    n as int
                } else {
                    old(self)@.line
                };
                let w = old(self)@.line_width(l2);
                &&& final(self)@.text == old(self)@.text
                &&& final(self)@.ends == old(self)@.ends
                &&& final(self)@.line == l2
                &&& final(self)@.col == if w < old(self)@.col {
                    w
                } else {
                    old(self)@.col
                }
            }),
            final(self)@.wf(),
    {
        self.core.set_line(n);
    }

    /// Moves the cursor to column `n` of its line; out-of-range columns are
    /// ignored.
    pub fn set_column(&mut self, n: usize)
        requires
            old(self)@.wf(),
        ensures
            final(self)@.text == old(self)@.text,
            final(self)@.ends == old(self)@.ends,
            final(self)@.line == old(self)@.line,
            final(self)@.col == if n as int <= old(self)@.line_width(old(self)@.line) {
                n as int
            } else {
                old(self)@.col
            },
            final(self)@.wf(),
    {
        self.core.set_column(n);
    }

    /// Moves the cursor to the beginning of the line below, stopping on the
    /// last line.
    pub fn move_to_beginning_of_upper_line(&mut self)
        requires
            old(self)@.wf(),
        ensures
            final(self)@.text == old(self)@.text,
            final(self)@.ends == old(self)@.ends,
            final(self)@.line == if old(self)@.line + 1 >= old(self)@.line_count() {
                old(self)@.line_count() - 1
            } else {
                old(self)@.line + 1
            },
            final(self)@.col == 0,
            final(self)@.wf(),
    {
        self.set_column(0);
        self.move_down(1);
    }

    /// Moves the cursor to the beginning of the line above, stopping on the
    /// first line.
    pub fn move_to_beginning_of_lower_line(&mut self)
        requires
            old(self)@.wf(),
        ensures
            final(self)@.text == old(self)@.text,
            final(self)@.ends == old(self)@.ends,
            final(self)@.line == if old(self)@.line < 1 {
                0
            } else {
                old(self)@.line - 1
            },
            final(self)@.col == 0,
            final(self)@.wf(),
    {
        self.set_column(0);
        self.move_up(1);
    }

    /// Joins line `line` with the line below it: the newline between them
    /// becomes a single space.
    pub fn join(&mut self, line: usize)
        requires
            old(self)@.wf(),
            (line as int) < old(self)@.line_count(),
            old(self)@.text.len() < usize::MAX,
        ensures
            ({
                let w = old(self)@.line_width(line as int);
                final(self)@ == old(self)@.deleted(line as int, w).inserted(' ', line as int, w)
            }),
            final(self)@.wf(),
    {
        let c: usize;
        match self.line_width(line) {
            Some(v) => {
                c = v;
            },
            None => {
                proof {
                    assert(false);
                }
                return ;
            },
        }
        self.delete_at(line, c);
        proof {
            reveal(CoreModel::deleted);
        }
        self.insert_at(' ', line, c);
    }

    /// Inserts `ch` at `(line, column)`; silently a no-op when the target
    /// addresses no position of the buffer.
    pub fn insert_at(&mut self, ch: char, line: usize, column: usize)
        requires
            old(self)@.wf(),
            old(self)@.text.len() < usize::MAX,
        ensures
            final(self)@ == old(self)@.inserted(ch, line as int, column as int),
            final(self)@.wf(),
    {
        self.core.insert_at(ch, line, column);
    }

    /// Inserts the characters of `s` at `(line, column)`; silently a no-op
    /// when the target addresses no position of the buffer.
    pub fn insert_string_at(&mut self, s: &str, line: usize, column: usize)
        requires
            old(self)@.wf(),
            old(self)@.text.len() + s@.len() <= usize::MAX,
        ensures
            final(self)@ == old(self)@.inserted_string(s@, line as int, column as int),
            final(self)@.wf(),
    {
        self.core.insert_string_at(s, line, column);
    }

    /// Deletes the character at `(line, column)`; silently a no-op when the
    /// target addresses no character.
    pub fn delete_at(&mut self, line: usize, column: usize)
        requires
            old(self)@.wf(),
        ensures
            final(self)@ == old(self)@.deleted(line as int, column as int),
            final(self)@.wf(),
    {
        self.core.delete_at(line, column);
    }

    /// Deletes the characters between two positions of the buffer.
    #[verifier::rlimit(100)]
    #[verifier::spinoff_prover]
    pub fn delete_range(&mut self, range: core::ops::Range<Position>)
        requires
            old(self)@.wf(),
            old(self)@.pos_ok(range.start.line as int, range.start.column as int),
            old(self)@.pos_ok(range.end.line as int, range.end.column as int),
            old(self)@.offset_of(range.start.line as int, range.start.column as int) <= old(
                self,
            )@.offset_of(range.end.line as int, range.end.column as int),
        ensures
            ({
                let so = old(self)@.offset_of(range.start.line as int, range.start.column as int);
                let eo = old(self)@.offset_of(range.end.line as int, range.end.column as int);
                &&& final(self)@ == old(self)@.deleted_n(
                    range.start.line as int,
                    range.start.column as int,
                    (eo - so) as nat,
                )
                &&& final(self)@.text == old(self)@.text.take(so) + old(self)@.text.skip(eo)
            }),
            final(self)@.wf(),
    {
        proof {
            let m0 = self@;
            let so = m0.offset_of(range.start.line as int, range.start.column as int);
            let eo = m0.offset_of(range.end.line as int, range.end.column as int);
            assert(m0.ends[range.end.line as int] <= m0.text.len());
            crate::model::lemma_deleted_n_effect(
                m0,
                range.start.line as int,
                range.start.column as int,
                (eo - so) as nat,
            );
        }
        self.core.delete_range(range);
    }

    /// Deletes line `line` whole: all of its characters and, unless it is
    /// the last line, its terminating newline.
    #[verifier::rlimit(100)]
    #[verifier::spinoff_prover]
    pub fn delete_line(&mut self, line: usize)
        requires
            old(self)@.wf(),
            (line as int) < old(self)@.line_count(),
        ensures
            final(self)@ == delete_line_spec(old(self)@, line as int),
            final(self)@.wf(),
    {
        proof {
            assert(line as int >= 1 ==> old(self)@.ends[line as int - 1] < old(
                self,
            )@.ends[line as int]);
        }
        let end: Position;
        if self.is_last_line(line) {
            let w: usize;
            match self.line_width(line) {
                Some(v) => {
                    w = v;
                },
                None => {
                    proof {
                        assert(false);
                    }
                    return ;
                },
            }
            end = Position::new(line, w);
        } else {
            let cnt = self.line_count();
            proof {
                assert(old(self)@.ends[line as int] < old(self)@.ends[line as int + 1]);
                assert((line as int) < cnt as int - 1);
            }
            end = Position::new(line + 1, 0);
        }
        self.delete_range(Position::new(line, 0)..end);
    }

    /// Whether `line` is the last line of the buffer.
    fn is_last_line(&self, line: usize) -> (r: bool)
        requires
            self@.wf(),
        ensures
            r == (line as int == self@.line_count() - 1),
    {
        line == self.line_count() - 1
    }

    /// Deletes the lines of `range` whole, from the highest down.
    pub fn delete_line_range(&mut self, range: core::ops::Range<usize>)
        requires
            old(self)@.wf(),
            range.start < range.end ==> (range.end as int) <= old(self)@.line_count(),
        ensures
            range.start < range.end ==> final(self)@ == delete_lines_spec(
                old(self)@,
                range.start as int,
                (range.end - range.start) as nat,
            ),
            range.start >= range.end ==> final(self)@ == old(self)@,
            final(self)@.wf(),
    {
        if range.start >= range.end {
            return ;
        }
        let ghost m0 = old(self)@;
        let ghost cnt0 = old(self)@.line_count();
        let mut l = range.end;
        proof {
            lemma_delete_lines_spec_facts(m0, l as int, 0);
        }
        while l > range.start
            invariant
                range.start <= l <= range.end,
                (range.end as int) <= cnt0,
                m0.wf(),
                cnt0 == m0.line_count(),
                self@ == delete_lines_spec(m0, l as int, (range.end - l) as nat),
                self@.wf(),
                self@.line_count() >= cnt0 - (range.end - l),
            decreases l,
        {
            l = l - 1;
            self.delete_line(l);
            proof {
                lemma_delete_lines_spec_step(m0, l as int, (range.end - l) as nat);
                lemma_delete_lines_spec_facts(m0, l as int, (range.end - l) as nat);
            }
        }
    }

    /// Deletes everything on the cursor's line before the cursor; the cursor
    /// lands on column zero.
    #[verifier::rlimit(100)]
    #[verifier::spinoff_prover]
    pub fn delete_to_beginning_of_line(&mut self)
        requires
            old(self)@.wf(),
        ensures
            final(self)@ == old(self)@.deleted_n(
                old(self)@.line,
                0,
                old(self)@.col as nat,
            ),
            final(self)@.text == old(self)@.text.take(old(self)@.line_start(old(self)@.line))
                + old(self)@.text.skip(old(self)@.cursor_offset()),
            final(self)@.wf(),
    {
        let s = Position::new(self.line(), 0);
        let e = Position::new(self.line(), self.column());
        self.delete_range(s..e);
    }

    /// Deletes everything on the cursor's line at or after the cursor.
    #[verifier::rlimit(100)]
    #[verifier::spinoff_prover]
    pub fn delete_to_end_of_line(&mut self)
        requires
            old(self)@.wf(),
        ensures
            final(self)@ == old(self)@.deleted_n(
                old(self)@.line,
                old(self)@.col,
                (old(self)@.line_width(old(self)@.line) - old(self)@.col) as nat,
            ),
            final(self)@.text == old(self)@.text.take(old(self)@.cursor_offset()) + old(
                self,
            )@.text.skip(old(self)@.ends[old(self)@.line]),
            final(self)@.wf(),
    {
        let s = Position::new(self.line(), self.column());
        let w = self.core.current_line_width();
        let e = Position::new(self.line(), w);
        self.delete_range(s..e);
    }

    /// Replaces the buffer between two positions with the characters of `s`.
    #[verifier::rlimit(100)]
    #[verifier::spinoff_prover]
    pub fn replace(&mut self, s: &str, range: core::ops::Range<Position>)
        requires
            old(self)@.wf(),
            old(self)@.pos_ok(range.start.line as int, range.start.column as int),
            old(self)@.pos_ok(range.end.line as int, range.end.column as int),
            old(self)@.offset_of(range.start.line as int, range.start.column as int) <= old(
                self,
            )@.offset_of(range.end.line as int, range.end.column as int),
            old(self)@.text.len() + s@.len() <= usize::MAX,
        ensures
            ({
                let so = old(self)@.offset_of(range.start.line as int, range.start.column as int);
                let eo = old(self)@.offset_of(range.end.line as int, range.end.column as int);
                final(self)@ == old(self)@.deleted_n(
                    range.start.line as int,
                    range.start.column as int,
                    (eo - so) as nat,
                ).inserted_string(s@, range.start.line as int, range.start.column as int)
            }),
            final(self)@.wf(),
    {
        let p = range.start;
        self.delete_range(range);
        self.insert_string_at(s, p.line, p.column);
    }
}

/// Assembling the sorted text: when the rebuilt text and line index are
/// consistent and the cursor's line kept its width, the new state is
/// well-formed and its lines have the sorted rows' widths.
#[verifier::rlimit(100)]
#[verifier::spinoff_prover]
proof fn lemma_sort_assemble(m0: CoreModel, start: int, end: int, t2: Seq<char>, e2: Seq<int>, nl: int)
    requires
        m0.wf(),
        0 <= start <= end <= m0.line_count(),
        ({
            let sorted = sorted_order(m0, start, end);
            let rows2 = Seq::new(m0.line_count() as nat, |k: int| m0.line_text(sorted[k]));
            let mm = CoreModel { text: t2, ends: e2, line: 0, col: 0 };
            &&& sorted.len() == m0.line_count()
            &&& t2 == joined(rows2)
            &&& mm.index_ok()
            &&& e2.len() == m0.line_count()
            &&& (forall|i: int| 0 <= i < e2.len() ==> mm.line_width(i) == rows2[i].len())
            &&& 0 <= nl < m0.line_count()
            &&& sorted[nl] == m0.line
        }),
    ensures
        ({
            let sorted = sorted_order(m0, start, end);
            let rows2 = Seq::new(m0.line_count() as nat, |k: int| m0.line_text(sorted[k]));
            let mf = CoreModel { text: t2, ends: e2, line: nl, col: m0.col };
            &&& mf.wf()
            &&& mf.line_count() == m0.line_count()
            &&& (forall|k: int| 0 <= k < m0.line_count() ==> mf.line_width(k) == rows2[k].len())
        }),
{
    let sorted = sorted_order(m0, start, end);
    let rows2 = Seq::new(m0.line_count() as nat, |k: int| m0.line_text(sorted[k]));
    let mm = CoreModel { text: t2, ends: e2, line: 0, col: 0 };
    let mf = CoreModel { text: t2, ends: e2, line: nl, col: m0.col };
    assert(mf.index_ok());
    assert forall|k: int| 0 <= k < m0.line_count() implies mf.line_width(k) == rows2[k].len() by {
        assert(mm.line_width(k) == rows2[k].len());
    }
    let l = m0.line;
    assert(rows2[nl] == m0.line_text(l));
    assert(m0.line_width(l) == m0.line_text(l).len()) by {
        assert(l >= 1 ==> m0.ends[l - 1] < m0.ends[l]);
    }
    assert(m0.col <= mf.line_width(nl));
}

/// Every line number appears in the sorted order.
proof fn lemma_sorted_contains(m0: CoreModel, start: int, end: int, l: int)
    requires
        0 <= start <= end <= m0.line_count(),
        0 <= l < m0.line_count(),
    ensures
        ({
            let sorted = sorted_order(m0, start, end);
            exists|p: int| 0 <= p < sorted.len() && #[trigger] sorted[p] == l
        }),
{
    let sorted = sorted_order(m0, start, end);
    lemma_isort_idx_len(m0, idseq(start, end));
    if start <= l < end {
        assert(idseq(start, end)[l - start] == l);
        assert(idseq(start, end).contains(l));
        lemma_isort_idx_contains(m0, idseq(start, end), l);
        let i = choose|i: int|
            0 <= i < isort_idx(m0, idseq(start, end)).len() && isort_idx(m0, idseq(start, end))[i]
                == l;
        assert(sorted[start + i] == l);
    } else if l < start {
        assert(sorted[l] == idseq(0, start)[l]);
        assert(sorted[l] == l);
    } else {
        assert(sorted[l] == idseq(end, m0.line_count())[l - end]);
        assert(sorted[l] == l);
    }
}

/// The first index at which a permutation holds the given value.
fn find_in_perm(perm: &Vec<usize>, l: usize) -> (r: usize)
    requires
        exists|p: int| 0 <= p < perm@.len() && #[trigger] perm@[p] == l,
    ensures
        (r as int) < perm@.len(),
        perm@[r as int] == l,
        forall|p: int| 0 <= p < r as int ==> #[trigger] perm@[p] != l,
{
    let cnt = perm.len();
    let mut nl: usize = 0;
    while perm[nl] != l
        invariant
            0 <= nl < cnt,
            cnt == perm@.len(),
            forall|p: int| 0 <= p < nl as int ==> #[trigger] perm@[p] != l,
            exists|p: int| nl as int <= p < cnt as int && #[trigger] perm@[p] == l,
        decreases cnt - nl,
    {
        nl = nl + 1;
        proof {
            let w = choose|p: int| nl as int - 1 <= p < cnt as int && #[trigger] perm@[p] == l;
            assert(w >= nl as int);
        }
    }
    nl
}

impl Editor {
    /// Whether line `a` comes strictly before line `b` in the sort order.
    fn row_lt(&self, a: usize, b: usize) -> (r: bool)
        requires
            self@.wf(),
            (a as int) < self@.line_count(),
            (b as int) < self@.line_count(),
        ensures
            r == key_lt(self@, a as int, b as int),
    {
        let ra: &[char];
        match self.line_buffer(a) {
            Some(v) => {
                ra = v;
            },
            None => {
                proof {
                    assert(false);
                }
                return false;
            },
        }
        let rb: &[char];
        match self.line_buffer(b) {
            Some(v) => {
                rb = v;
            },
            None => {
                proof {
                    assert(false);
                }
                return false;
            },
        }
        if lex_lt_slices(ra, rb) {
            true
        } else if lex_lt_slices(rb, ra) {
            false
        } else {
            proof {
                lemma_lex_lt_total(ra@, rb@);
            }
            a < b
        }
    }

    /// The order of the lines after sorting those of `[start, end)`: a
    /// permutation of the line numbers, computed by insertion sort.
    #[verifier::rlimit(100)]
    #[verifier::spinoff_prover]
    fn sorted_perm(&self, start: usize, end: usize) -> (perm: Vec<usize>)
        requires
            self@.wf(),
            start <= end,
            (end as int) <= self@.line_count(),
        ensures
            perm@.len() == self@.line_count(),
            forall|p: int| 0 <= p < perm@.len() ==> 0 <= #[trigger] perm@[p] < self@.line_count(),
            forall|p: int|
                0 <= p < perm@.len() ==> #[trigger] perm@[p] as int == sorted_order(
                    self@,
                    start as int,
                    end as int,
                )[p],
            sorted_order(self@, start as int, end as int).len() == self@.line_count(),
    {
        let ghost m0 = self@;
        let cnt = self.line_count();
        let mut perm: Vec<usize> = Vec::new();
        let mut k: usize = 0;
        while k < cnt
            invariant
                k <= cnt,
                perm@.len() == k,
                forall|p: int| 0 <= p < k as int ==> #[trigger] perm@[p] == p,
            decreases cnt - k,
        {
            perm.push(k);
            k = k + 1;
        }
        let mut kk = start;
        proof {
            assert(perm@.subrange(start as int, kk as int).map_values(|u: usize| u as int)
                =~= isort_idx(m0, idseq(start as int, kk as int)));
        }
        while kk < end
            invariant
                start <= kk <= end,
                (end as int) <= cnt as int,
                cnt as int == m0.line_count(),
                m0.wf(),
                self@ == m0,
                perm@.len() == cnt,
                forall|p: int| 0 <= p < cnt as int ==> 0 <= #[trigger] perm@[p] < cnt,
                forall|p: int| 0 <= p < start as int ==> #[trigger] perm@[p] == p,
                forall|p: int| kk as int <= p < cnt as int ==> #[trigger] perm@[p] == p,
                perm@.subrange(start as int, kk as int).map_values(|u: usize| u as int)
                    == isort_idx(m0, idseq(start as int, kk as int)),
            decreases end - kk,
        {
            let ghost seg = perm@.subrange(start as int, kk as int).map_values(
                |u: usize| u as int,
            );
            let x = perm[kk];
            let mut j = start;
            while j < kk && self.row_lt(perm[j], x)
                invariant
                    start <= j <= kk,
                    kk < cnt,
                    cnt as int == m0.line_count(),
                    m0.wf(),
                    self@ == m0,
                    perm@.len() == cnt,
                    x == perm@[kk as int],
                    0 <= x < cnt,
                    forall|p: int| 0 <= p < cnt as int ==> 0 <= #[trigger] perm@[p] < cnt,
                    forall|p: int|
                        start as int <= p < j as int ==> key_lt(
                            m0,
                            #[trigger] perm@[p] as int,
                            x as int,
                        ),
                decreases kk - j,
            {
                j = j + 1;
            }
            let xv = perm.remove(kk);
            perm.insert(j, xv);
            proof {
                let seg2 = perm@.subrange(start as int, kk as int + 1).map_values(
                    |u: usize| u as int,
                );
                lemma_insert_idx_at(m0, x as int, seg, j as int - start as int);
                assert(seg2 =~= seg.take(j as int - start as int) + seq![x as int] + seg.skip(
                    j as int - start as int,
                ));
                assert(seg2 == insert_idx(m0, x as int, seg));
                assert(idseq(start as int, kk as int + 1).drop_last() =~= idseq(
                    start as int,
                    kk as int,
                ));
                assert(idseq(start as int, kk as int + 1).last() == kk as int);
                assert(x as int == kk as int);
                assert(seg2 == isort_idx(m0, idseq(start as int, kk as int + 1)));
            }
            kk = kk + 1;
        }
        let ghost sorted = sorted_order(m0, start as int, end as int);
        proof {
            lemma_isort_idx_len(m0, idseq(start as int, end as int));
            assert forall|p: int|
                0 <= p < cnt as int implies #[trigger] perm@[p] as int == sorted[p] by {
                if p < start as int {
                    assert(idseq(0, start as int)[p] == p);
                } else if p < end as int {
                    assert(sorted[p] == isort_idx(m0, idseq(start as int, end as int))[p
                        - start as int]);
                    assert(perm@.subrange(start as int, end as int).map_values(
                        |u: usize| u as int,
                    )[p - start as int] == perm@[p] as int);
                } else {
                    assert(sorted[p] == idseq(end as int, cnt as int)[p - end as int]);
                }
            }
        }
        perm
    }

    /// The rows named by `perm`, joined into one text with a newline after
    /// each, together with the line index of that text.
    #[verifier::rlimit(100)]
    fn build_sorted_text(&self, perm: &Vec<usize>) -> (r: (Vec<char>, Vec<usize>))
        requires
            self@.wf(),
            perm@.len() == self@.line_count(),
            forall|p: int| 0 <= p < perm@.len() ==> 0 <= #[trigger] perm@[p] < self@.line_count(),
        ensures
            ({
                let rows2 = Seq::new(
                    self@.line_count() as nat,
                    |k: int| self@.line_text(perm@[k] as int),
                );
                let mm = CoreModel {
                    text: r.0@,
                    ends: r.1@.map_values(|u: usize| u as int),
                    line: 0,
                    col: 0,
                };
                &&& r.0@ == joined(rows2)
                &&& mm.index_ok()
                &&& mm.line_count() == self@.line_count()
                &&& (forall|i: int|
                    0 <= i < mm.line_count() ==> mm.line_width(i) == rows2[i].len())
            }),
    {
        let ghost m0 = self@;
        let cnt = self.line_count();
        let ghost rows2 = Seq::new(cnt as nat, |k: int| m0.line_text(perm@[k] as int));
        let mut out: Vec<char> = Vec::new();
        let mut bounds: Vec<usize> = Vec::new();
        let mut idx: usize = 0;
        proof {
            assert(joined(rows2.take(0)) =~= Seq::<char>::empty());
        }
        while idx < cnt
            invariant
                idx <= cnt,
                cnt as int == m0.line_count(),
                m0.wf(),
                self@ == m0,
                perm@.len() == cnt,
                forall|p: int| 0 <= p < cnt as int ==> 0 <= #[trigger] perm@[p] < cnt,
                rows2 == Seq::new(cnt as nat, |k: int| m0.line_text(perm@[k] as int)),
                out@ == joined(rows2.take(idx as int)),
                bounds@.len() == idx,
                forall|i: int|
                    0 <= i < idx as int ==> 0 <= #[trigger] bounds@[i] < out@.len()
                        && out@[bounds@[i] as int] == '\n',
                forall|i: int, i2: int|
                    0 <= i < i2 < idx as int ==> #[trigger] bounds@[i] < #[trigger] bounds@[i2],
                idx > 0 ==> bounds@[idx as int - 1] as int == out@.len() - 1,
                forall|i: int, q: int|
                    #![trigger bounds@[i], out@[q]]
                    0 <= i < idx as int && (if i == 0 {
                        0
                    } else {
                        bounds@[i - 1] + 1
                    }) <= q < bounds@[i] ==> out@[q] != '\n',
                forall|i: int|
                    0 <= i < idx as int ==> bounds@[i] - (if i == 0 {
                        0int
                    } else {
                        bounds@[i - 1] + 1
                    }) == rows2[i].len(),
            decreases cnt - idx,
        {
            let p = perm[idx];
            let row = self.core.line_chars(p);
            proof {
                assert(row@ == rows2[idx as int]);
                assert(p as int >= 1 ==> m0.ends[p as int - 1] < m0.ends[p as int]);
                assert forall|q: int| 0 <= q < row@.len() implies row@[q] != '\n' by {
                    assert(m0.text[m0.line_start(p as int) + q] != '\n');
                }
            }
            let ghost base = out@;
            let rlen = row.len();
            let mut q: usize = 0;
            while q < rlen
                invariant
                    q <= rlen,
                    rlen == row@.len(),
                    out@ == base + row@.take(q as int),
                decreases rlen - q,
            {
                let ch = row[q];
                out.push(ch);
                proof {
                    assert(out@ =~= base + row@.take(q as int + 1));
                }
                q = q + 1;
            }
            proof {
                assert(base + row@.take(rlen as int) =~= base + row@);
            }
            out.push('\n');
            let ob = out.len() - 1;
            bounds.push(ob);
            proof {
                assert(rows2.take(idx as int + 1).drop_last() =~= rows2.take(idx as int));
                assert(rows2.take(idx as int + 1).last() == rows2[idx as int]);
                assert(out@ =~= joined(rows2.take(idx as int)) + rows2[idx as int] + seq![
                    '\n',
                ]);
                assert(out@ == joined(rows2.take(idx as int + 1)));
            }
            idx = idx + 1;
        }
        proof {
            assert(rows2.take(cnt as int) =~= rows2);
        }
        (out, bounds)
    }

    /// Sorts the lines of `range` by their contents, lexicographically by
    /// Unicode scalar value; lines with equal contents keep their relative
    /// order, lines outside the range keep their places, and the text gains
    /// a final newline. The cursor follows its line to the line's place in
    /// the sorted order, keeping its column.
    #[verifier::rlimit(100)]
    #[verifier::spinoff_prover]
    pub fn sort_line_range(&mut self, range: core::ops::Range<usize>)
        requires
            old(self)@.wf(),
            range.start <= range.end,
            (range.end as int) <= old(self)@.line_count(),
        ensures
            ({
                let cnt = old(self)@.line_count();
                let sorted = sorted_order(old(self)@, range.start as int, range.end as int);
                let rows2 = Seq::new(cnt as nat, |k: int| old(self)@.line_text(sorted[k]));
                &&& final(self)@.text == joined(rows2)
                &&& final(self)@.line_count() == cnt
                &&& (forall|k: int|
                    0 <= k < cnt ==> final(self)@.line_width(k) == rows2[k].len())
                &&& 0 <= final(self)@.line < cnt
                &&& sorted[final(self)@.line] == old(self)@.line
                &&& (forall|p: int| 0 <= p < final(self)@.line ==> sorted[p] != old(self)@.line)
                &&& final(self)@.col == old(self)@.col
            }),
            final(self)@.wf(),
    {
        let ghost m0 = old(self)@;
        let cnt = self.line_count();
        let start = range.start;
        let end = range.end;
        let ghost sorted = sorted_order(m0, start as int, end as int);
        let perm = self.sorted_perm(start, end);
        // find where the cursor's line went
        let l = self.line();
        let c = self.column();
        proof {
            lemma_sorted_contains(m0, start as int, end as int, l as int);
            let w = choose|p: int| 0 <= p < sorted.len() && #[trigger] sorted[p] == l as int;
            assert(perm@[w] as int == sorted[w]);
            assert(exists|p: int| 0 <= p < perm@.len() && #[trigger] perm@[p] == l);
        }
        let nl = find_in_perm(&perm, l);
        proof {
            assert(perm@[nl as int] as int == sorted[nl as int]);
            assert forall|p: int| 0 <= p < nl as int implies #[trigger] sorted[p] != l as int by {
                assert(perm@[p] != l);
            }
        }
        let pair = self.build_sorted_text(&perm);
        let out = pair.0;
        let bounds = pair.1;
        let ghost rows2 = Seq::new(cnt as nat, |k: int| m0.line_text(sorted[k]));
        proof {
            let rowsp = Seq::new(cnt as nat, |k: int| m0.line_text(perm@[k] as int));
            assert(rowsp =~= rows2);
            assert(sorted[nl as int] == l as int);
            lemma_sort_assemble(
                m0,
                start as int,
                end as int,
                out@,
                bounds@.map_values(|u: usize| u as int),
                nl as int,
            );
        }
        let newcore = Core::from_parts(out, bounds, nl, c);
        self.core = newcore;
    }

    /// Sorts all lines of the buffer by their contents.
    pub fn sort_line(&mut self)
        requires
            old(self)@.wf(),
        ensures
            ({
                let cnt = old(self)@.line_count();
                let sorted = sorted_order(old(self)@, 0, cnt);
                let rows2 = Seq::new(cnt as nat, |k: int| old(self)@.line_text(sorted[k]));
                &&& final(self)@.text == joined(rows2)
                &&& final(self)@.line_count() == cnt
                &&& (forall|k: int|
                    0 <= k < cnt ==> final(self)@.line_width(k) == rows2[k].len())
                &&& 0 <= final(self)@.line < cnt
                &&& sorted[final(self)@.line] == old(self)@.line
                &&& (forall|p: int| 0 <= p < final(self)@.line ==> sorted[p] != old(self)@.line)
                &&& final(self)@.col == old(self)@.col
            }),
            final(self)@.wf(),
    {
        let n = self.line_count();
        self.sort_line_range(0..n);
    }
}

impl Clone for Editor {
    /// A clone carries the same text, line index and cursor.
    fn clone(&self) -> (r: Editor)
        ensures
            r@ == self@,
    {
        Editor { core: self.core.clone() }
    }
}

} // verus!
