use vstd::prelude::*;

use crate::classify::CharClass;
use crate::model::{
    canonical, lemma_canonical_index_ok, lemma_deleted_n_step, lemma_deleted_wf,
    lemma_inserted_string_step, lemma_inserted_wf, lemma_last_newline_position,
    lemma_line_of_from_is, lemma_newline_positions_props, lemma_scan_first_props,
    lemma_scan_last_props, line_index, newline_positions, scan_first, scan_last, CoreModel,
};
use crate::position::{Position, PositionError};
use crate::strings::chars_of;

verus! {

/// The buffer core: the text as a flat sequence of codepoints, the derived
/// line index, and the cursor as a `(line, column)` pair. All three are kept
/// consistent across every mutation; `CoreModel` is the mathematical view.
#[derive(PartialEq, Debug)]
pub struct Core {
    buffer: Vec<char>,
    newline_indices: Vec<usize>,
    line: usize,
    column: usize,
}

impl View for Core {
    type V = CoreModel;

    closed spec fn view(&self) -> CoreModel {
        CoreModel {
            text: self.buffer@,
            ends: self.newline_indices@.map_values(|u: usize| u as int),
            line: self.line as int,
            col: self.column as int,
        }
    }
}

/// Builds the canonical line index of a text: the offset of each newline,
/// followed by the sentinel `chars.len()` when the text does not end with a
/// newline.
fn build_index(chars: &Vec<char>) -> (idx: Vec<usize>)
    ensures
        idx@.map_values(|u: usize| u as int) == line_index(chars@),
{
    let n = chars.len();
    let mut idx: Vec<usize> = Vec::new();
    let mut j: usize = 0;
    while j < n
        invariant
            j <= n,
            n == chars@.len(),
            idx@.map_values(|u: usize| u as int) == newline_positions(chars@.take(j as int)),
        decreases n - j,
    {
        let ghost prev = chars@.take(j as int);
        if chars[j] == '\n' {
            idx.push(j);
        }
        proof {
            let next = chars@.take(j + 1 as int);
            assert(next.drop_last() =~= prev);
            assert(next.last() == chars@[j as int]);
            if chars@[j as int] == '\n' {
                assert(idx@.map_values(|u: usize| u as int) =~= newline_positions(prev).push(
                    j as int,
                ));
            }
        }
        j = j + 1;
    }
    proof {
        assert(chars@.take(n as int) =~= chars@);
        lemma_newline_positions_props(chars@);
    }
    if idx.len() == 0 {
        proof {
            if chars@.len() > 0 && chars@.last() == '\n' {
                lemma_last_newline_position(chars@);
            }
            assert(idx@.map_values(|u: usize| u as int).push(n as int) =~= line_index(chars@));
        }
        idx.push(n);
    } else {
        let last = idx[idx.len() - 1];
        proof {
            assert(idx@.map_values(|u: usize| u as int)[idx@.len() - 1] == last as int);
            assert(0 <= last < n);
        }
        if last + 1 != n {
            proof {
                if chars@.len() > 0 && chars@.last() == '\n' {
                    lemma_last_newline_position(chars@);
                }
                assert(idx@.map_values(|u: usize| u as int).push(n as int) =~= line_index(
                    chars@,
                ));
            }
            idx.push(n);
        } else {
            proof {
                assert(chars@[n - 1] == '\n');
                assert(chars@.last() == '\n');
            }
        }
    }
    idx
}

/// Moves every entry of `v` at or past index `from` one to the right.
fn shift_right_from(v: &mut Vec<usize>, from: usize)
    requires
        forall|p: int| from as int <= p < old(v)@.len() ==> old(v)@[p] < usize::MAX,
    ensures
        final(v)@.len() == old(v)@.len(),
        forall|p: int| 0 <= p < from as int ==> final(v)@[p] == old(v)@[p],
        forall|p: int|
            from as int <= p < old(v)@.len() ==> final(v)@[p] as int == old(v)@[p] as int + 1,
{
    let n = v.len();
    let mut k = from;
    while k < n
        invariant
            from <= k <= n || (from > n && k == from),
            n == v@.len() == old(v)@.len(),
            forall|p: int| from as int <= p < old(v)@.len() ==> old(v)@[p] < usize::MAX,
            forall|p: int| 0 <= p < from as int ==> v@[p] == old(v)@[p],
            forall|p: int| from as int <= p < k as int ==> v@[p] as int == old(v)@[p] as int + 1,
            forall|p: int| k as int <= p < n as int ==> v@[p] == old(v)@[p],
        decreases n - k,
    {
        let x = v[k];
        v[k] = x + 1;
        k = k + 1;
    }
}

/// Moves every entry of `v` at or past index `from` one to the left.
fn shift_left_from(v: &mut Vec<usize>, from: usize)
    requires
        forall|p: int| from as int <= p < old(v)@.len() ==> old(v)@[p] >= 1,
    ensures
        final(v)@.len() == old(v)@.len(),
        forall|p: int| 0 <= p < from as int ==> final(v)@[p] == old(v)@[p],
        forall|p: int|
            from as int <= p < old(v)@.len() ==> final(v)@[p] as int == old(v)@[p] as int - 1,
{
    let n = v.len();
    let mut k = from;
    while k < n
        invariant
            from <= k <= n || (from > n && k == from),
            n == v@.len() == old(v)@.len(),
            forall|p: int| from as int <= p < old(v)@.len() ==> old(v)@[p] >= 1,
            forall|p: int| 0 <= p < from as int ==> v@[p] == old(v)@[p],
            forall|p: int| from as int <= p < k as int ==> v@[p] as int == old(v)@[p] as int - 1,
            forall|p: int| k as int <= p < n as int ==> v@[p] == old(v)@[p],
        decreases n - k,
    {
        let x = v[k];
        v[k] = x - 1;
        k = k + 1;
    }
}

impl Core {
    /// Creates a new `Core` from an initial text and an initial cursor,
    /// measured in codepoints. Reports an error, rather than clamping, when
    /// the line does not exist or the column lies beyond the line's width.
    pub fn new(buffer: &str, line: usize, column: usize) -> (r: Result<Core, PositionError>)
        ensures
            ({
                let cm = canonical(buffer@, line as int, column as int);
                &&& (line as int >= cm.line_count() ==> r == Err::<Core, PositionError>(
                    PositionError::LineOutOfRange(line),
                ))
                &&& ((line as int) < cm.line_count() && (column as int) > cm.line_width(
                    line as int,
                ) ==> r == Err::<Core, PositionError>(PositionError::ColumnOutOfRange(column)))
                &&& (cm.pos_ok(line as int, column as int) ==> r is Ok && r->Ok_0@ == cm
                    && cm.wf())
            }),
    {
        let ghost cm = canonical(buffer@, line as int, column as int);
        let chars = chars_of(buffer);
        let indices = build_index(&chars);
        proof {
            lemma_canonical_index_ok(buffer@, line as int, column as int);
            assert(indices@.len() >= 1);
        }
        if indices.len() <= line {
            return Err(PositionError::LineOutOfRange(line));
        }
        let right = indices[line];
        proof {
            assert(indices@.map_values(|u: usize| u as int)[line as int] == right as int);
            if line as int >= 1 {
                assert(cm.ends[line as int - 1] < cm.ends[line as int]);
            }
        }
        let left: usize = if line == 0 {
            0
        } else {
            let prev = indices[line - 1];
            proof {
                assert(indices@.map_values(|u: usize| u as int)[line as int - 1] == prev as int);
            }
            prev + 1
        };
        let width = right - left;
        if width < column {
            return Err(PositionError::ColumnOutOfRange(column));
        }
        let core = Core { buffer: chars, newline_indices: indices, line, column };
        proof {
            assert(core@ == cm);
        }
        Ok(core)
    }

    /// Replaces the whole state: a new text and a new cursor, which must
    /// address a position of the new text.
    pub fn reset(&mut self, buffer: &str, line: usize, column: usize)
        requires
            canonical(buffer@, line as int, column as int).pos_ok(line as int, column as int),
        ensures
            final(self)@ == canonical(buffer@, line as int, column as int),
            final(self)@.wf(),
    {
        let chars = chars_of(buffer);
        let indices = build_index(&chars);
        proof {
            lemma_canonical_index_ok(buffer@, line as int, column as int);
        }
        self.buffer = chars;
        self.newline_indices = indices;
        self.line = line;
        self.column = column;
    }

    /// Read-only access to the text.
    pub fn buffer(&self) -> (r: &[char])
        ensures
            r@ == self@.text,
    {
        self.buffer.as_slice()
    }

    /// The line of the cursor.
    pub fn line(&self) -> (r: usize)
        ensures
            r as int == self@.line,
    {
        self.line
    }

    /// The column of the cursor.
    pub fn column(&self) -> (r: usize)
        ensures
            r as int == self@.col,
    {
        self.column
    }

    /// The number of lines of the buffer; at least one, even when the buffer
    /// is empty.
    pub fn line_count(&self) -> (r: usize)
        ensures
            r as int == self@.line_count(),
    {
        self.newline_indices.len()
    }

    /// The number of characters of line `n`, its terminating newline
    /// excluded; `None` when the buffer has no line `n`.
    pub fn line_width(&self, n: usize) -> (r: Option<usize>)
        requires
            self@.index_ok(),
        ensures
            r == (if (n as int) < self@.line_count() {
                Some(self@.line_width(n as int) as usize)
            } else {
                None::<usize>
            }),
            r matches Some(v) ==> v as int == self@.line_width(n as int) && (n as int)
                < self@.line_count(),
    {
        if n >= self.newline_indices.len() {
            return None;
        }
        let right = self.newline_indices[n];
        proof {
            assert(self@.ends[n as int] == right as int);
            if n as int >= 1 {
                assert(self@.ends[n as int - 1] < self@.ends[n as int]);
            }
        }
        if n == 0 {
            return Some(right);
        }
        let left = self.newline_indices[n - 1] + 1;
        proof {
            assert(self@.ends[n as int - 1] == self.newline_indices@[n as int - 1] as int);
        }
        Some(right - left)
    }

    /// The width of the cursor's own line.
    pub fn current_line_width(&self) -> (r: usize)
        requires
            self@.index_ok(),
            0 <= self@.line < self@.line_count(),
        ensures
            r as int == self@.line_width(self@.line),
    {
        let w = self.line_width(self.line);
        w.unwrap()
    }

    /// The absolute codepoint offset of `(line, column)`; `None` when that
    /// pair addresses no position of the buffer.
    pub fn offset(&self, line: usize, column: usize) -> (r: Option<usize>)
        requires
            self@.index_ok(),
        ensures
            r == (if self@.pos_ok(line as int, column as int) {
                Some(self@.offset_of(line as int, column as int) as usize)
            } else {
                None::<usize>
            }),
            r matches Some(v) ==> v as int == self@.offset_of(line as int, column as int)
                && self@.pos_ok(line as int, column as int),
    {
        let w = self.line_width(line);
        match w {
            None => None,
            Some(width) => {
                if width < column {
                    None
                } else {
                    proof {
                        assert(self@.ends[line as int] <= self@.text.len());
                    }
                    if line == 0 {
                        Some(column)
                    } else {
                        let left = self.newline_indices[line - 1] + 1;
                        proof {
                            assert(self@.ends[line as int - 1] == self.newline_indices@[line as int
                                - 1] as int);
                            assert(self@.ends[line as int - 1] < self@.ends[line as int]);
                        }
                        Some(left + column)
                    }
                }
            },
        }
    }

    /// The absolute offset of the cursor; never fails while the cursor
    /// invariant holds.
    pub fn current_offset(&self) -> (r: usize)
        requires
            self@.wf(),
        ensures
            r as int == self@.cursor_offset(),
    {
        let o = self.offset(self.line, self.column);
        o.unwrap()
    }

    /// Moves the cursor to column `n` of its line; out-of-range columns are
    /// ignored.
    pub fn set_column(&mut self, n: usize)
        requires
            old(self)@.wf(),
        ensures
            final(self)@.text == old(self)@.text,
            final(self)@.ends == old(self)@.ends,
            final(self)@.line == old(self)@.line,
            final(self)@.col == if n as int <= old(self)@.line_width(old(self)@.line) {
                n as int
            } else {
                old(self)@.col
            },
            final(self)@.wf(),
    {
        if n <= self.current_line_width() {
            self.column = n;
        }
    }

    /// Moves the cursor to line `n`, clamping the column to the new line's
    /// width; out-of-range lines are ignored (the column is clamped anyway).
    pub fn set_line(&mut self, n: usize)
        requires
            old(self)@.wf(),
        ensures
            ({
                let l2 = if (n as int) < old(self)@.line_count() {
                    n as int
                } else {
                    old(self)@.line
                };
                let w = old(self)@.line_width(l2);
                &&& final(self)@.text == old(self)@.text
                &&& final(self)@.ends == old(self)@.ends
                &&& final(self)@.line == l2
                &&& final(self)@.col == if w < old(self)@.col {
                    w
                } else {
                    old(self)@.col
                }
            }),
            final(self)@.wf(),
    {
        if n < self.newline_indices.len() {
            self.line = n;
        }
        let width = self.current_line_width();
        if width < self.column {
            self.column = width;
        }
    }

    /// Moves the cursor `n` columns leftward, stopping at the first column.
    pub fn move_left(&mut self, n: usize)
        requires
            old(self)@.wf(),
        ensures
            final(self)@.text == old(self)@.text,
            final(self)@.ends == old(self)@.ends,
            final(self)@.line == old(self)@.line,
            final(self)@.col == if old(self)@.col < n as int {
                0
            } else {
                old(self)@.col - n as int
            },
            final(self)@.wf(),
    {
        if self.column < n {
            self.column = 0;
            return ;
        }
        self.column = self.column - n;
    }

    /// Moves the cursor `n` columns rightward, stopping at the last column
    /// of its line (the slot past the last character).
    pub fn move_right(&mut self, n: usize)
        requires
            old(self)@.wf(),
        ensures
            ({
                let w = old(self)@.line_width(old(self)@.line);
                &&& final(self)@.text == old(self)@.text
                &&& final(self)@.ends == old(self)@.ends
                &&& final(self)@.line == old(self)@.line
                &&& final(self)@.col == if old(self)@.col + n as int >= w {
                    w
                } else {
                    old(self)@.col + n as int
                }
            }),
            final(self)@.wf(),
    {
        let width = self.current_line_width();
        if n >= width - self.column {
            self.column = width;
            return ;
        }
        self.column = self.column + n;
    }

    /// Moves the cursor `n` lines upward, stopping at the first line; the
    /// column is clamped to the width of the line reached.
    pub fn move_up(&mut self, n: usize)
        requires
            old(self)@.wf(),
        ensures
            ({
                let l2 = if old(self)@.line < n as int {
                    0
                } else {
                    old(self)@.line - n as int
                };
                let w = old(self)@.line_width(l2);
                &&& final(self)@.text == old(self)@.text
                &&& final(self)@.ends == old(self)@.ends
                &&& final(self)@.line == l2
                &&& final(self)@.col == if w < old(self)@.col {
                    w
                } else {
                    old(self)@.col
                }
            }),
            final(self)@.wf(),
    {
        if self.line < n {
            self.line = 0;
        } else {
            self.line = self.line - n;
        }
        let width = self.current_line_width();
        if width < self.column {
            self.column = width;
        }
    }

    /// Moves the cursor `n` lines downward, stopping at the last line; the
    /// column is clamped to the width of the line reached.
    pub fn move_down(&mut self, n: usize)
        requires
            old(self)@.wf(),
        ensures
            ({
                let l2 = if old(self)@.line + n as int >= old(self)@.line_count() {
                    old(self)@.line_count() - 1
                } else {
                    old(self)@.line + n as int
                };
                let w = old(self)@.line_width(l2);
                &&& final(self)@.text == old(self)@.text
                &&& final(self)@.ends == old(self)@.ends
                &&& final(self)@.line == l2
                &&& final(self)@.col == if w < old(self)@.col {
                    w
                } else {
                    old(self)@.col
                }
            }),
            final(self)@.wf(),
    {
        let count = self.newline_indices.len();
        if n >= count - 1 - self.line {
            self.line = count - 1;
        } else {
            self.line = self.line + n;
        }
        let width = self.current_line_width();
        if width < self.column {
            self.column = width;
        }
    }

    /// Inserts `ch` at `(line, column)`, shifting the line index and
    /// repairing the cursor; silently a no-op when the target addresses no
    /// position of the buffer.
    #[verifier::rlimit(100)]
    #[verifier::spinoff_prover]
    pub fn insert_at(&mut self, ch: char, line: usize, column: usize)
        requires
            old(self)@.wf(),
            old(self)@.text.len() < usize::MAX,
        ensures
            final(self)@ == old(self)@.inserted(ch, line as int, column as int),
            final(self)@.wf(),
    {
        proof {
            lemma_inserted_wf(old(self)@, ch, line as int, column as int);
            reveal(CoreModel::inserted);
        }
        let ghost m = old(self)@;
        let i: usize;
        match self.offset(line, column) {
            Some(v) => {
                i = v;
            },
            None => {
                return ;
            },
        }
        let cur = self.current_offset();
        proof {
            assert(m.ends[line as int] <= m.text.len());
            assert(line as int >= 1 ==> m.ends[line as int - 1] < m.ends[line as int]);
            assert(cur <= m.ends[m.line]);
            assert forall|p: int|
                line as int <= p < self.newline_indices@.len() implies self.newline_indices@[p]
                < usize::MAX by {
                assert(m.ends[p] == self.newline_indices@[p] as int);
                assert(line as int <= p ==> m.ends[line as int] <= m.ends[p]);
                assert(m.ends[p] <= m.text.len());
            }
        }
        self.buffer.insert(i, ch);
        shift_right_from(&mut self.newline_indices, line);
        if ch == '\n' {
            self.newline_indices.insert(line, i);
        }
        let ghost m2 = m.inserted(ch, line as int, column as int);
        proof {
            reveal(CoreModel::inserted);
            assert forall|p: int|
                0 <= p < self.newline_indices@.len() implies self.newline_indices@[p] as int
                == m2.ends[p] by {
                if ch == '\n' {
                    if p > line as int {
                        assert(self.newline_indices@[p] as int == m.ends[p - 1] + 1);
                    }
                } else {
                    if p >= line as int {
                        assert(self.newline_indices@[p] as int == m.ends[p] + 1);
                    }
                }
            }
            assert(self.newline_indices@.map_values(|u: usize| u as int) =~= m2.ends);
        }
        if ch == '\n' && i <= cur {
            if self.line == line {
                self.column = cur - i;
            }
            proof {
                assert((self.line as int) < m.line_count());
                assert(self.newline_indices@.len() == self.newline_indices.len());
                assert(self.newline_indices@.len() == m.ends.len() + 1);
            }
            self.line = self.line + 1;
        } else if line == self.line && column <= self.column {
            proof {
                assert(m.col <= m.line_width(m.line));
                assert(m.ends[m.line] <= m.text.len());
            }
            self.column = self.column + 1;
        }
        proof {
            reveal(CoreModel::inserted);
            assert(self@.ends == m2.ends);
            assert(self@ == m2);
        }
    }

    /// Deletes the character at `(line, column)`, shifting the line index and
    /// repairing the cursor; silently a no-op when the target addresses no
    /// character.
    #[verifier::rlimit(100)]
    #[verifier::spinoff_prover]
    pub fn delete_at(&mut self, line: usize, column: usize)
        requires
            old(self)@.wf(),
        ensures
            final(self)@ == old(self)@.deleted(line as int, column as int),
            final(self)@.wf(),
    {
        proof {
            lemma_deleted_wf(old(self)@, line as int, column as int);
            reveal(CoreModel::deleted);
        }
        let ghost m = old(self)@;
        let w: usize;
        match self.line_width(line) {
            Some(v) => {
                w = v;
            },
            None => {
                return ;
            },
        }
        if w < column {
            return ;
        }
        let cur = self.current_offset();
        let off: usize;
        match self.offset(line, column) {
            Some(v) => {
                off = v;
            },
            None => {
                return ;
            },
        }
        if off >= self.buffer.len() {
            // the position exists but no character sits there: the very end
            // of the buffer
            return ;
        }
        proof {
            assert(line as int >= 1 ==> m.ends[line as int - 1] < m.ends[line as int]);
            assert(off as int <= m.ends[line as int]);
            assert(cur <= m.ends[m.line]);
        }
        let ch = self.buffer.remove(off);
        proof {
            assert(ch == m.text[off as int]);
        }
        if ch == '\n' {
            proof {
                assert(off as int == m.ends[line as int]) by {
                    if (off as int) < m.ends[line as int] {
                        assert(m.text[off as int] != '\n');
                    }
                }
            }
            if line < self.newline_indices.len() - 1 {
                self.newline_indices.remove(line);
                proof {
                    assert forall|p: int|
                        line as int <= p < self.newline_indices@.len() implies
                        self.newline_indices@[p] >= 1 by {
                        assert(self.newline_indices@[p] as int == m.ends[p + 1]);
                        assert(m.ends[line as int] < m.ends[p + 1]);
                        assert(m.ends[line as int] >= 0);
                    }
                }
                shift_left_from(&mut self.newline_indices, line);
            }
            // otherwise the deleted newline ended the text: its boundary
            // stays in place as the sentinel of the shortened text
        } else {
            proof {
                assert((off as int) < m.ends[line as int]) by {
                    if off as int == m.ends[line as int] {
                        assert(m.text[off as int] == '\n');
                    }
                }
                assert forall|p: int|
                    line as int <= p < self.newline_indices@.len() implies self.newline_indices@[p]
                    >= 1 by {
                    assert(self.newline_indices@[p] as int == m.ends[p]);
                    assert(line as int <= p ==> m.ends[line as int] <= m.ends[p]);
                }
            }
            shift_left_from(&mut self.newline_indices, line);
        }
        let ghost m2 = m.deleted(line as int, column as int);
        proof {
            reveal(CoreModel::deleted);
            assert forall|p: int|
                0 <= p < self.newline_indices@.len() implies self.newline_indices@[p] as int
                == m2.ends[p] by {
                if ch == '\n' && (line as int) < m.line_count() - 1 {
                    if p >= line as int {
                        assert(self.newline_indices@[p] as int == m.ends[p + 1] - 1);
                    }
                } else if ch != '\n' {
                    if p >= line as int {
                        assert(self.newline_indices@[p] as int == m.ends[p] - 1);
                    }
                }
            }
            assert(self.newline_indices@.map_values(|u: usize| u as int) =~= m2.ends);
        }
        if ch == '\n' && off < cur {
            proof {
                assert(m.ends[line as int] < m.ends[m.line]);
                assert(m.line >= 1) by {
                    if m.line <= line as int {
                        assert(m.line <= line as int ==> m.ends[m.line] <= m.ends[line as int]);
                    }
                }
            }
            self.line = self.line - 1;
            if self.line == line {
                proof {
                    assert(m2.wf());
                    assert(m2.col <= m2.line_width(m2.line));
                    assert(m2.ends[m2.line] <= m2.text.len());
                }
                self.column = w + (cur - off - 1);
            }
        } else if line == self.line && column < self.column {
            self.column = self.column - 1;
        }
        proof {
            reveal(CoreModel::deleted);
            assert(self@.ends == m2.ends);
            assert(self@ == m2);
        }
    }

    /// Inserts every character of `s` at `(line, column)`, one at a time in
    /// reverse order, each at the same target; the buffer ends up holding `s`
    /// read left to right at the target's offset. A no-op when the target
    /// addresses no position of the buffer.
    pub fn insert_string_at(&mut self, s: &str, line: usize, column: usize)
        requires
            old(self)@.wf(),
            old(self)@.text.len() + s@.len() <= usize::MAX,
        ensures
            final(self)@ == old(self)@.inserted_string(s@, line as int, column as int),
            final(self)@.wf(),
    {
        let ghost m0 = old(self)@;
        let v = chars_of(s);
        let n = v.len();
        let mut idx = n;
        proof {
            reveal(CoreModel::inserted_string);
            assert(s@.skip(n as int) =~= Seq::<char>::empty());
            assert(m0.inserted_string(s@.skip(n as int), line as int, column as int) == m0);
        }
        while idx > 0
            invariant
                idx <= n,
                n == v@.len(),
                v@ == s@,
                m0.wf(),
                m0.text.len() + n <= usize::MAX,
                self@ == m0.inserted_string(s@.skip(idx as int), line as int, column as int),
                self@.wf(),
                self@.text.len() <= m0.text.len() + (n - idx),
            decreases idx,
        {
            idx = idx - 1;
            let ghost pre = self@;
            self.insert_at(v[idx], line, column);
            proof {
                let t = s@.skip(idx as int);
                assert(t.len() > 0);
                assert(t.first() == s@[idx as int]);
                assert(t.drop_first() =~= s@.skip(idx as int + 1));
                lemma_inserted_string_step(m0, t, line as int, column as int);
                reveal(CoreModel::inserted);
                assert(self@.text.len() <= pre.text.len() + 1);
            }
        }
        proof {
            assert(s@.skip(0) =~= s@);
        }
    }

    /// Deletes `n` times at `(line, column)`.
    fn delete_n_at(&mut self, line: usize, column: usize, n: usize)
        requires
            old(self)@.wf(),
        ensures
            final(self)@ == old(self)@.deleted_n(line as int, column as int, n as nat),
            final(self)@.wf(),
    {
        let ghost m0 = old(self)@;
        let mut k: usize = 0;
        proof {
            reveal(CoreModel::deleted_n);
            assert(m0.deleted_n(line as int, column as int, 0) == m0);
        }
        while k < n
            invariant
                k <= n,
                m0.wf(),
                self@ == m0.deleted_n(line as int, column as int, k as nat),
                self@.wf(),
            decreases n - k,
        {
            self.delete_at(line, column);
            proof {
                lemma_deleted_n_step(m0, line as int, column as int, k as nat);
            }
            k = k + 1;
        }
    }

    /// Deletes the characters between two positions: as many single-character
    /// deletions at the start position as the two positions' offsets are
    /// apart. Both positions must address positions of the buffer, the start
    /// not after the end.
    #[verifier::rlimit(100)]
    #[verifier::spinoff_prover]
    pub fn delete_range(&mut self, range: core::ops::Range<Position>)
        requires
            old(self)@.wf(),
            old(self)@.pos_ok(range.start.line as int, range.start.column as int),
            old(self)@.pos_ok(range.end.line as int, range.end.column as int),
            old(self)@.offset_of(range.start.line as int, range.start.column as int) <= old(
                self,
            )@.offset_of(range.end.line as int, range.end.column as int),
        ensures
            ({
                let so = old(self)@.offset_of(range.start.line as int, range.start.column as int);
                let eo = old(self)@.offset_of(range.end.line as int, range.end.column as int);
                &&& final(self)@ == old(self)@.deleted_n(
                    range.start.line as int,
                    range.start.column as int,
                    (eo - so) as nat,
                )
                &&& final(self)@.wf()
            }),
    {
        let ghost m0 = old(self)@;
        let start = range.start;
        let so: usize;
        match self.offset(start.line, start.column) {
            Some(v) => {
                so = v;
            },
            None => {
                proof {
                    assert(false);
                }
                return ;
            },
        }
        let eo: usize;
        match self.offset(range.end.line, range.end.column) {
            Some(v) => {
                eo = v;
            },
            None => {
                proof {
                    assert(false);
                }
                return ;
            },
        }
        let n = eo - so;
        self.delete_n_at(start.line, start.column, n);
    }

    /// The first offset at or past `from` whose character's membership in
    /// `cls` equals `want`.
    pub(crate) fn scan_forward(&self, from: usize, cls: CharClass, want: bool) -> (r: Option<
        usize,
    >)
        requires
            from as int <= self@.text.len(),
        ensures
            r is None <==> scan_first(self@.text, from as int, cls, want) is None,
            r matches Some(v) ==> scan_first(self@.text, from as int, cls, want) == Some(
                v as int,
            ),
    {
        let n = self.buffer.len();
        let mut j = from;
        while j < n
            invariant
                from <= j <= n,
                n as int == self@.text.len(),
                forall|p: int|
                    from as int <= p < j as int ==> cls.matches(#[trigger] self@.text[p]) != want,
            decreases n - j,
        {
            let ch = self.buffer[j];
            if cls.applies(ch) == want {
                proof {
                    lemma_scan_first_props(self@.text, from as int, cls, want);
                }
                return Some(j);
            }
            j = j + 1;
        }
        proof {
            lemma_scan_first_props(self@.text, from as int, cls, want);
        }
        None
    }

    /// The last offset before `upto` whose character's membership in `cls`
    /// equals `want`.
    pub(crate) fn scan_back(&self, upto: usize, cls: CharClass, want: bool) -> (r: Option<usize>)
        requires
            upto as int <= self@.text.len(),
        ensures
            r is None <==> scan_last(self@.text, upto as int - 1, cls, want) is None,
            r matches Some(v) ==> scan_last(self@.text, upto as int - 1, cls, want) == Some(
                v as int,
            ),
    {
        let mut j = upto;
        while j > 0
            invariant
                j <= upto,
                upto as int <= self@.text.len(),
                forall|p: int|
                    j as int <= p < upto as int ==> cls.matches(#[trigger] self@.text[p]) != want,
            decreases j,
        {
            j = j - 1;
            let ch = self.buffer[j];
            if cls.applies(ch) == want {
                proof {
                    lemma_scan_last_props(self@.text, upto as int - 1, cls, want);
                }
                return Some(j);
            }
        }
        proof {
            lemma_scan_last_props(self@.text, upto as int - 1, cls, want);
        }
        None
    }

    /// Translates an absolute offset back into a `(line, column)` pair by
    /// scanning the line index from line `lo`, which must lie at or before
    /// the offset's own line.
    fn position_at(&self, off: usize, lo: usize) -> (p: Position)
        requires
            self@.index_ok(),
            (lo as int) < self@.line_count(),
            forall|k: int| 0 <= k < lo as int ==> self@.ends[k] < off as int,
            off as int <= self@.ends[self@.line_count() - 1],
        ensures
            p == self@.pos_at(off as int),
            self@.pos_ok(p.line as int, p.column as int),
            self@.offset_of(p.line as int, p.column as int) == off as int,
    {
        let n = self.newline_indices.len();
        let mut k = lo;
        while self.newline_indices[k] < off
            invariant
                lo <= k < n,
                n as int == self@.line_count(),
                self@.index_ok(),
                off as int <= self@.ends[self@.line_count() - 1],
                forall|j: int| 0 <= j < k as int ==> self@.ends[j] < off as int,
            decreases n - k,
        {
            proof {
                assert(self@.ends[k as int] == self.newline_indices@[k as int] as int);
                assert((k as int) < self@.line_count() - 1) by {
                    if k as int == self@.line_count() - 1 {
                        assert(self@.ends[k as int] >= off as int);
                    }
                }
            }
            k = k + 1;
        }
        proof {
            assert(self@.ends[k as int] == self.newline_indices@[k as int] as int);
            lemma_line_of_from_is(self@, off as int, 0, k as int);
            if k as int >= 1 {
                assert(self@.ends[k as int - 1] < self@.ends[k as int]);
            }
        }
        let start: usize = if k == 0 {
            0
        } else {
            let prev = self.newline_indices[k - 1];
            proof {
                assert(self@.ends[k as int - 1] == prev as int);
            }
            prev + 1
        };
        Position { line: k, column: off - start }
    }

    /// The position of the start of the next run of characters matching
    /// `cls`: the rest of the current non-matching stretch is skipped, then
    /// the scan stops at the first matching character. `None` when every
    /// character from the cursor on matches, or none does after that.
    pub fn next_position(&self, cls: CharClass) -> (r: Option<Position>)
        requires
            self@.wf(),
        ensures
            r == self@.next_position_spec(cls),
            r matches Some(p) ==> self@.pos_ok(p.line as int, p.column as int),
    {
        let off = self.current_offset();
        proof {
            assert(self@.ends[self@.line] <= self@.text.len());
        }
        let a: usize;
        match self.scan_forward(off, cls, false) {
            None => {
                return None;
            },
            Some(v) => {
                a = v;
            },
        }
        proof {
            lemma_scan_first_props(self@.text, off as int, cls, false);
            assert(self.buffer@.len() == self.buffer.len());
        }
        let f: usize;
        match self.scan_forward(a + 1, cls, true) {
            None => {
                return None;
            },
            Some(v) => {
                f = v;
            },
        }
        proof {
            lemma_scan_first_props(self@.text, a as int + 1, cls, true);
            assert(self@.text.len() - 1 <= self@.ends[self@.line_count() - 1]);
            assert forall|k: int| 0 <= k < self@.line implies self@.ends[k] < f as int by {
                assert(k <= self@.line - 1 ==> self@.ends[k] <= self@.ends[self@.line - 1]);
                assert(self@.line_start(self@.line) <= off as int);
            }
        }
        let p = self.position_at(f, self.line);
        Some(p)
    }

    /// The position of the last character of the next matching run, provided
    /// the run stops matching before the end of the buffer; `None` when no
    /// matching character follows the cursor, or the run reaches the end.
    pub fn next_end_position(&self, cls: CharClass) -> (r: Option<Position>)
        requires
            self@.wf(),
        ensures
            r == self@.next_end_position_spec(cls),
            r matches Some(p) ==> self@.pos_ok(p.line as int, p.column as int),
    {
        let off = self.current_offset();
        proof {
            assert(self@.ends[self@.line] <= self@.text.len());
        }
        let a: usize;
        match self.scan_forward(off, cls, true) {
            None => {
                return None;
            },
            Some(v) => {
                a = v;
            },
        }
        proof {
            lemma_scan_first_props(self@.text, off as int, cls, true);
            assert(self.buffer@.len() == self.buffer.len());
        }
        let e: usize;
        match self.scan_forward(a + 1, cls, false) {
            None => {
                return None;
            },
            Some(v) => {
                e = v;
            },
        }
        proof {
            lemma_scan_first_props(self@.text, a as int + 1, cls, false);
            assert(self@.text.len() - 1 <= self@.ends[self@.line_count() - 1]);
            assert forall|k: int| 0 <= k < self@.line implies self@.ends[k] < e as int - 1 by {
                assert(k <= self@.line - 1 ==> self@.ends[k] <= self@.ends[self@.line - 1]);
                assert(self@.line_start(self@.line) <= off as int);
            }
        }
        let p = self.position_at(e - 1, self.line);
        Some(p)
    }

    /// The position of the start of the nearest matching run that ends
    /// before the cursor; the start of the buffer when that run reaches all
    /// the way back. `None` when no matching character precedes the cursor.
    pub fn previous_position(&self, cls: CharClass) -> (r: Option<Position>)
        requires
            self@.wf(),
        ensures
            r == self@.previous_position_spec(cls),
            r matches Some(p) ==> self@.pos_ok(p.line as int, p.column as int),
    {
        let off = self.current_offset();
        proof {
            assert(self@.ends[self@.line] <= self@.text.len());
        }
        let j: usize;
        match self.scan_back(off, cls, true) {
            None => {
                return None;
            },
            Some(v) => {
                j = v;
            },
        }
        proof {
            lemma_scan_last_props(self@.text, off as int - 1, cls, true);
            assert(self@.text.len() - 1 <= self@.ends[self@.line_count() - 1]);
        }
        let st: usize;
        match self.scan_back(j, cls, false) {
            None => {
                st = 0;
            },
            Some(v) => {
                proof {
                    lemma_scan_last_props(self@.text, j as int - 1, cls, false);
                }
                st = v + 1;
            },
        }
        let p = self.position_at(st, 0);
        Some(p)
    }

    /// The position of the last character of the matching run that precedes
    /// the nearest non-matching stretch before the cursor; the start of the
    /// buffer when no matching character precedes that stretch. `None` when
    /// everything before the cursor matches.
    pub fn previous_end_position(&self, cls: CharClass) -> (r: Option<Position>)
        requires
            self@.wf(),
        ensures
            r == self@.previous_end_position_spec(cls),
            r matches Some(p) ==> self@.pos_ok(p.line as int, p.column as int),
    {
        let off = self.current_offset();
        proof {
            assert(self@.ends[self@.line] <= self@.text.len());
        }
        let j0: usize;
        match self.scan_back(off, cls, false) {
            None => {
                return None;
            },
            Some(v) => {
                j0 = v;
            },
        }
        proof {
            lemma_scan_last_props(self@.text, off as int - 1, cls, false);
            assert(self@.text.len() - 1 <= self@.ends[self@.line_count() - 1]);
        }
        match self.scan_back(j0, cls, true) {
            None => {
                let p = self.position_at(0, 0);
                Some(p)
            },
            Some(e) => {
                proof {
                    lemma_scan_last_props(self@.text, j0 as int - 1, cls, true);
                }
                let p = self.position_at(e, 0);
                Some(p)
            },
        }
    }

    /// One position past the end of the next matching run: past the last
    /// column the position moves to the start of the next line. `None` when
    /// there is no such run.
    pub fn after_position(&self, cls: CharClass) -> (r: Option<Position>)
        requires
            self@.wf(),
        ensures
            r == self@.after_position_spec(cls),
    {
        match self.next_end_position(cls) {
            None => None,
            Some(p) => {
                let w: usize;
                match self.line_width(p.line) {
                    Some(v) => {
                        w = v;
                    },
                    None => {
                        proof {
                            assert(false);
                        }
                        return None;
                    },
                }
                if p.column < w {
                    Some(Position::new(p.line, p.column + 1))
                } else {
                    proof {
                        assert(self.newline_indices@.len() == self.newline_indices.len());
                    }
                    Some(Position::new(p.line + 1, 0))
                }
            },
        }
    }

    /// One position before the start of the previous matching run: before
    /// the first column the position moves to the last column of the
    /// previous line. `None` when there is no such run, or it starts the
    /// buffer.
    pub fn before_position(&self, cls: CharClass) -> (r: Option<Position>)
        requires
            self@.wf(),
        ensures
            r == self@.before_position_spec(cls),
    {
        match self.previous_position(cls) {
            None => None,
            Some(p) => {
                if p.column == 0 {
                    if p.line == 0 {
                        None
                    } else {
                        let w: usize;
                        match self.line_width(p.line - 1) {
                            Some(v) => {
                                w = v;
                            },
                            None => {
                                proof {
                                    assert(false);
                                }
                                return None;
                            },
                        }
                        Some(Position::new(p.line - 1, w))
                    }
                } else {
                    Some(Position::new(p.line, p.column - 1))
                }
            },
        }
    }

    /// The position of the start of the next keyword: a run of alphanumeric
    /// characters.
    pub fn next_keyword_position(&self) -> (r: Option<Position>)
        requires
            self@.wf(),
        ensures
            r == self@.next_position_spec(CharClass::Keyword),
    {
        self.next_position(CharClass::Keyword)
    }

    /// The position of the start of the previous keyword.
    pub fn previous_keyword_position(&self) -> (r: Option<Position>)
        requires
            self@.wf(),
        ensures
            r == self@.previous_position_spec(CharClass::Keyword),
    {
        self.previous_position(CharClass::Keyword)
    }

    /// The position of the start of the next symbol: a run of characters
    /// neither alphanumeric nor whitespace.
    pub fn next_symbol_position(&self) -> (r: Option<Position>)
        requires
            self@.wf(),
        ensures
            r == self@.next_position_spec(CharClass::Symbol),
    {
        self.next_position(CharClass::Symbol)
    }

    /// The position of the start of the previous symbol.
    pub fn previous_symbol_position(&self) -> (r: Option<Position>)
        requires
            self@.wf(),
        ensures
            r == self@.previous_position_spec(CharClass::Symbol),
    {
        self.previous_position(CharClass::Symbol)
    }

    /// The position of the end of the next keyword.
    pub fn next_keyword_end_position(&self) -> (r: Option<Position>)
        requires
            self@.wf(),
        ensures
            r == self@.next_end_position_spec(CharClass::Keyword),
    {
        self.next_end_position(CharClass::Keyword)
    }

    /// The position of the end of the previous keyword.
    pub fn previous_keyword_end_position(&self) -> (r: Option<Position>)
        requires
            self@.wf(),
        ensures
            r == self@.previous_end_position_spec(CharClass::Keyword),
    {
        self.previous_end_position(CharClass::Keyword)
    }

    /// The position of the end of the next symbol.
    pub fn next_symbol_end_position(&self) -> (r: Option<Position>)
        requires
            self@.wf(),
        ensures
            r == self@.next_end_position_spec(CharClass::Symbol),
    {
        self.next_end_position(CharClass::Symbol)
    }

    /// The position of the end of the previous symbol.
    pub fn previous_symbol_end_position(&self) -> (r: Option<Position>)
        requires
            self@.wf(),
        ensures
            r == self@.previous_end_position_spec(CharClass::Symbol),
    {
        self.previous_end_position(CharClass::Symbol)
    }

    /// One position past the end of the next keyword.
    pub fn after_keyword_position(&self) -> (r: Option<Position>)
        requires
            self@.wf(),
        ensures
            r == self@.after_position_spec(CharClass::Keyword),
    {
        self.after_position(CharClass::Keyword)
    }

    /// One position before the start of the previous keyword.
    pub fn before_keyword_position(&self) -> (r: Option<Position>)
        requires
            self@.wf(),
        ensures
            r == self@.before_position_spec(CharClass::Keyword),
    {
        self.before_position(CharClass::Keyword)
    }

    /// One position past the end of the next symbol.
    pub fn after_symbol_position(&self) -> (r: Option<Position>)
        requires
            self@.wf(),
        ensures
            r == self@.after_position_spec(CharClass::Symbol),
    {
        self.after_position(CharClass::Symbol)
    }

    /// One position before the start of the previous symbol.
    pub fn before_symbol_position(&self) -> (r: Option<Position>)
        requires
            self@.wf(),
        ensures
            r == self@.before_position_spec(CharClass::Symbol),
    {
        self.before_position(CharClass::Symbol)
    }

    /// A copy of the characters of line `l`, its terminator excluded.
    pub(crate) fn line_chars(&self, l: usize) -> (v: Vec<char>)
        requires
            self@.index_ok(),
            (l as int) < self@.line_count(),
        ensures
            v@ == self@.line_text(l as int),
    {
        proof {
            assert(l as int >= 1 ==> self@.ends[l as int - 1] < self@.ends[l as int]);
            assert(self@.ends[l as int] <= self@.text.len());
        }
        let ls: usize;
        match self.offset(l, 0) {
            Some(x) => {
                ls = x;
            },
            None => {
                proof {
                    assert(false);
                }
                return Vec::new();
            },
        }
        let w: usize;
        match self.line_width(l) {
            Some(x) => {
                w = x;
            },
            None => {
                proof {
                    assert(false);
                }
                return Vec::new();
            },
        }
        let mut v: Vec<char> = Vec::new();
        let mut q: usize = 0;
        let n = self.buffer.len();
        proof {
            assert(v@ =~= self@.text.subrange(ls as int, ls as int));
        }
        while q < w
            invariant
                q <= w,
                self@.index_ok(),
                (l as int) < self@.line_count(),
                ls as int == self@.line_start(l as int),
                ls as int + w as int == self@.ends[l as int],
                self@.ends[l as int] <= self@.text.len(),
                n as int == self@.text.len(),
                v@ == self@.text.subrange(ls as int, ls as int + q as int),
            decreases w - q,
        {
            proof {
                assert(self.buffer@ == self@.text);
                assert((ls as int + q as int) < (ls as int) + (w as int));
                assert((ls as int + q as int) < (n as int));
            }
            let c = self.buffer[ls + q];
            v.push(c);
            proof {
                assert(v@ =~= self@.text.subrange(ls as int, ls as int + q as int + 1));
            }
            q = q + 1;
        }
        proof {
            assert(v@ =~= self@.line_text(l as int));
        }
        v
    }

    /// Builds a `Core` directly from its parts; the parts must already form
    /// a well-formed state.
    pub(crate) fn from_parts(buffer: Vec<char>, ends: Vec<usize>, line: usize, column: usize) -> (r:
        Core)
        requires
            (CoreModel {
                text: buffer@,
                ends: ends@.map_values(|u: usize| u as int),
                line: line as int,
                col: column as int,
            }).wf(),
        ensures
            r@ == (CoreModel {
                text: buffer@,
                ends: ends@.map_values(|u: usize| u as int),
                line: line as int,
                col: column as int,
            }),
            r@.wf(),
    {
        Core { buffer, newline_indices: ends, line, column }
    }
}

impl Clone for Core {
    /// A clone carries the same text, line index and cursor.
    fn clone(&self) -> (r: Core)
        ensures
            r@ == self@,
    {
        let r = Core {
            buffer: self.buffer.clone(),
            newline_indices: self.newline_indices.clone(),
            line: self.line,
            column: self.column,
        };
        proof {
            assert(r.buffer@ =~= self.buffer@);
            assert(r.newline_indices@ =~= self.newline_indices@);
            assert(r@.ends =~= self@.ends);
        }
        r
    }
}

} // verus!
