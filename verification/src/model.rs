use vstd::prelude::*;

use crate::classify::CharClass;
use crate::position::Position;

verus! {

/// The mathematical model of the buffer core: the text as a sequence of
/// codepoints, the derived line index, and the cursor.
///
/// The line index `ends` holds one boundary per line: entry `n` is the
/// codepoint offset of the newline that terminates line `n`, except that the
/// last entry may instead equal the length of the text (a sentinel standing
/// for the missing final newline).
pub struct CoreModel {
    /// The text, one entry per Unicode scalar value.
    pub text: Seq<char>,
    /// The line index: the terminating boundary of each line, ascending.
    pub ends: Seq<int>,
    /// The line of the cursor.
    pub line: int,
    /// The column of the cursor.
    pub col: int,
}

impl CoreModel {
    /// The number of lines; one entry of the line index per line.
    pub open spec fn line_count(self) -> int {
        self.ends.len() as int
    }

    /// The offset of the first character of line `n`: zero for the first
    /// line, one past the previous line's terminating newline otherwise.
    pub open spec fn line_start(self, n: int) -> int {
        if n == 0 {
            0
        } else {
            self.ends[n - 1] + 1
        }
    }

    /// The number of characters of line `n`, its terminator excluded.
    pub open spec fn line_width(self, n: int) -> int {
        self.ends[n] - self.line_start(n)
    }

    /// The absolute codepoint offset of `(l, c)`.
    pub open spec fn offset_of(self, l: int, c: int) -> int {
        self.line_start(l) + c
    }

    /// Whether `(l, c)` addresses a position of the buffer. The column may
    /// equal the width of the line: that is the slot past its last character.
    pub open spec fn pos_ok(self, l: int, c: int) -> bool {
        0 <= l < self.line_count() && 0 <= c <= self.line_width(l)
    }

    /// The absolute offset of the cursor.
    pub open spec fn cursor_offset(self) -> int {
        self.offset_of(self.line, self.col)
    }

    /// Consistency of the line index with the text:
    /// - there is at least one line, even in an empty text;
    /// - the boundaries ascend strictly;
    /// - every boundary is the offset of a newline or the length of the text;
    /// - the last boundary reaches the end of the text, so every character
    ///   lies on some line;
    /// - strictly inside a line there is no newline.
    pub open spec fn index_ok(self) -> bool {
        &&& self.ends.len() >= 1
        &&& (forall|j: int, k: int|
            0 <= j < k < self.ends.len() ==> #[trigger] self.ends[j] < #[trigger] self.ends[k])
        &&& (forall|k: int|
            0 <= k < self.ends.len() ==> 0 <= #[trigger] self.ends[k] <= self.text.len() && (
            self.ends[k] == self.text.len() || self.text[self.ends[k]] == '\n'))
        &&& self.text.len() - 1 <= self.ends[self.ends.len() - 1] <= self.text.len()
        &&& (forall|k: int, i: int|
            #![trigger self.ends[k], self.text[i]]
            0 <= k < self.ends.len() && self.line_start(k) <= i < self.ends[k] ==> self.text[i]
                != '\n')
    }

    /// Well-formedness: the line index is consistent and the cursor addresses
    /// a position of the buffer.
    pub open spec fn wf(self) -> bool {
        self.index_ok() && self.pos_ok(self.line, self.col)
    }

    /// The line on which offset `off` lies, scanning from line `k`: the
    /// first line whose boundary is at or past `off`.
    pub open spec fn line_of_from(self, off: int, k: int) -> int
        decreases self.ends.len() - k,
    {
        if k >= self.ends.len() - 1 || off <= self.ends[k] {
            k
        } else {
            self.line_of_from(off, k + 1)
        }
    }

    /// The line on which offset `off` lies.
    pub open spec fn line_of(self, off: int) -> int {
        self.line_of_from(off, 0)
    }

    /// The characters of line `k`, its terminator excluded.
    pub open spec fn line_text(self, k: int) -> Seq<char> {
        self.text.subrange(self.line_start(k), self.ends[k])
    }

    /// The position addressing offset `off`: the inverse of `offset_of`.
    /// An offset sitting on a line boundary maps to the end-of-line slot.
    pub open spec fn pos_at(self, off: int) -> Position {
        Position {
            line: self.line_of(off) as usize,
            column: (off - self.line_start(self.line_of(off))) as usize,
        }
    }

    /// The position of the next run of characters matching `cls`: skip the
    /// rest of the current non-matching stretch, then the start of the next
    /// matching run; `None` when no non-matching character follows the
    /// cursor, or no matching run follows that.
    pub open spec fn next_position_spec(self, cls: CharClass) -> Option<Position> {
        match scan_first(self.text, self.cursor_offset(), cls, false) {
            None => None,
            Some(a) => match scan_first(self.text, a + 1, cls, true) {
                None => None,
                Some(f) => Some(self.pos_at(f)),
            },
        }
    }

    /// The position of the last character of the next matching run that ends
    /// before the end of the buffer: the first matching character at or past
    /// the cursor, then one short of where the run stops matching.
    pub open spec fn next_end_position_spec(self, cls: CharClass) -> Option<Position> {
        match scan_first(self.text, self.cursor_offset(), cls, true) {
            None => None,
            Some(a) => match scan_first(self.text, a + 1, cls, false) {
                None => None,
                Some(e) => Some(self.pos_at(e - 1)),
            },
        }
    }

    /// The position of the start of the nearest matching run that ends
    /// before the cursor; the start of the buffer when that run reaches all
    /// the way back.
    pub open spec fn previous_position_spec(self, cls: CharClass) -> Option<Position> {
        match scan_last(self.text, self.cursor_offset() - 1, cls, true) {
            None => None,
            Some(j) => match scan_last(self.text, j - 1, cls, false) {
                None => Some(self.pos_at(0)),
                Some(k) => Some(self.pos_at(k + 1)),
            },
        }
    }

    /// The position of the last character of the matching run that precedes
    /// the nearest non-matching stretch before the cursor; the start of the
    /// buffer when no matching character precedes that stretch.
    pub open spec fn previous_end_position_spec(self, cls: CharClass) -> Option<Position> {
        match scan_last(self.text, self.cursor_offset() - 1, cls, false) {
            None => None,
            Some(j0) => match scan_last(self.text, j0 - 1, cls, true) {
                None => Some(self.pos_at(0)),
                Some(e) => Some(self.pos_at(e)),
            },
        }
    }

    /// One position past the end of the next matching run: past the last
    /// column a position moves to the start of the next line.
    pub open spec fn after_position_spec(self, cls: CharClass) -> Option<Position> {
        match self.next_end_position_spec(cls) {
            None => None,
            Some(p) => Some(
                if (p.column as int) < self.line_width(p.line as int) {
                    Position { line: p.line, column: (p.column + 1) as usize }
                } else {
                    Position { line: (p.line + 1) as usize, column: 0 }
                },
            ),
        }
    }

    /// One position before the start of the previous matching run: before
    /// the first column a position moves to the last column of the previous
    /// line, and the start of the buffer has no position before it.
    pub open spec fn before_position_spec(self, cls: CharClass) -> Option<Position> {
        match self.previous_position_spec(cls) {
            None => None,
            Some(p) => if p.column == 0 {
                if p.line == 0 {
                    None
                } else {
                    Some(
                        Position {
                            line: (p.line - 1) as usize,
                            column: self.line_width(p.line as int - 1) as usize,
                        },
                    )
                }
            } else {
                Some(Position { line: p.line, column: (p.column - 1) as usize })
            },
        }
    }

    /// The state after inserting `ch` at `(l, c)`: a no-op when the target is
    /// not a position of the buffer. Otherwise the character lands at the
    /// target's offset, every line boundary at or past the target line moves
    /// one to the right, a newline splits the target line in two, and the
    /// cursor is repaired: it follows the text pushed onto the new line when
    /// the newline lands at or before it, and moves one column right when a
    /// character lands at or before it on its own line.
    #[verifier::opaque]
    pub open spec fn inserted(self, ch: char, l: int, c: int) -> CoreModel {
        if !self.pos_ok(l, c) {
            self
        } else {
            let i = self.offset_of(l, c);
            let cur = self.cursor_offset();
            let ends2 = if ch == '\n' {
                Seq::new(
                    (self.ends.len() + 1) as nat,
                    |k: int|
                        if k < l {
                            self.ends[k]
                        } else if k == l {
                            i
                        } else {
                            self.ends[k - 1] + 1
                        },
                )
            } else {
                Seq::new(
                    self.ends.len(),
                    |k: int| if k < l { self.ends[k] } else { self.ends[k] + 1 },
                )
            };
            let line2 = if ch == '\n' && i <= cur {
                self.line + 1
            } else {
                self.line
            };
            let col2 = if ch == '\n' && i <= cur {
                if self.line == l {
                    cur - i
                } else {
                    self.col
                }
            } else if l == self.line && c <= self.col {
                self.col + 1
            } else {
                self.col
            };
            CoreModel { text: self.text.insert(i, ch), ends: ends2, line: line2, col: col2 }
        }
    }

    /// Whether `(l, c)` addresses a character that can be deleted: a position
    /// of the buffer whose offset falls short of the end of the text.
    pub open spec fn delete_ok(self, l: int, c: int) -> bool {
        self.pos_ok(l, c) && self.offset_of(l, c) < self.text.len()
    }

    /// The state after deleting the character at `(l, c)`: a no-op when the
    /// target addresses no character. Otherwise the character at the target's
    /// offset leaves the text, every line boundary past that offset moves one
    /// to the left, a deleted newline merges the target line with the next
    /// one (when the newline ended the whole text, its boundary simply stays
    /// as the sentinel of the shortened text), and the cursor is repaired
    /// symmetrically to insertion.
    #[verifier::opaque]
    pub open spec fn deleted(self, l: int, c: int) -> CoreModel {
        if !self.delete_ok(l, c) {
            self
        } else {
            let o = self.offset_of(l, c);
            let ch = self.text[o];
            let cur = self.cursor_offset();
            let w = self.line_width(l);
            let ends2 = if ch == '\n' {
                if l < self.line_count() - 1 {
                    Seq::new(
                        (self.ends.len() - 1) as nat,
                        |k: int| if k < l { self.ends[k] } else { self.ends[k + 1] - 1 },
                    )
                } else {
                    self.ends
                }
            } else {
                Seq::new(
                    self.ends.len(),
                    |k: int| if k < l { self.ends[k] } else { self.ends[k] - 1 },
                )
            };
            let line2 = if ch == '\n' && o < cur {
                self.line - 1
            } else {
                self.line
            };
            let col2 = if ch == '\n' && o < cur {
                if self.line - 1 == l {
                    w + cur - o - 1
                } else {
                    self.col
                }
            } else if l == self.line && c < self.col {
                self.col - 1
            } else {
                self.col
            };
            CoreModel { text: self.text.remove(o), ends: ends2, line: line2, col: col2 }
        }
    }

    /// The state after inserting the characters of `s` at `(l, c)`, one at a
    /// time in reverse order, each at the same target; the buffer ends up
    /// holding `s` read left to right at the target's offset.
    #[verifier::opaque]
    pub open spec fn inserted_string(self, s: Seq<char>, l: int, c: int) -> CoreModel
        decreases s.len(),
    {
        if s.len() == 0 {
            self
        } else {
            self.inserted(s.last(), l, c).inserted_string(s.drop_last(), l, c)
        }
    }

    /// The state after deleting `n` times at `(l, c)`.
    #[verifier::opaque]
    pub open spec fn deleted_n(self, l: int, c: int, n: nat) -> CoreModel
        decreases n,
    {
        if n == 0 {
            self
        } else {
            self.deleted(l, c).deleted_n(l, c, (n - 1) as nat)
        }
    }
}

/// Insertion preserves well-formedness when the inserted character is a
/// newline: the split line index stays consistent with the new text.
#[verifier::rlimit(100)]
#[verifier::spinoff_prover]
proof fn lemma_inserted_wf_newline(m: CoreModel, l: int, c: int)
    requires
        m.wf(),
        m.pos_ok(l, c),
    ensures
        m.inserted('\n', l, c).wf(),
{
    reveal(CoreModel::inserted);
    let ch = '\n';
    let m2 = m.inserted(ch, l, c);
    let i = m.offset_of(l, c);
    let cur = m.cursor_offset();
    let n = m.ends.len() as int;
    let t2 = m2.text;
    assert(l >= 1 ==> m.ends[l - 1] < m.ends[l]);
    assert(m.line_start(l) <= i <= m.ends[l]);
    assert(m.line <= l - 1 ==> m.ends[m.line] <= m.ends[l - 1]);
    assert(l <= m.line - 1 ==> m.ends[l] <= m.ends[m.line - 1]);
    assert(cur <= m.ends[m.line]);
    assert(forall|p: int| 0 <= p < i ==> t2[p] == m.text[p]);
    assert(t2[i] == ch);
    assert(forall|p: int| i < p < t2.len() ==> t2[p] == m.text[p - 1]);
    assert forall|k: int| 0 <= k < l implies #[trigger] m.ends[k] < i by {
        assert(k <= l - 1 ==> m.ends[k] <= m.ends[l - 1]);
    }
    assert forall|k: int| l <= k < n implies i <= #[trigger] m.ends[k] by {
        assert(l <= k ==> m.ends[l] <= m.ends[k]);
    }
    assert forall|j: int, k: int|
        0 <= j < k < m2.ends.len() implies #[trigger] m2.ends[j] < #[trigger] m2.ends[k] by {
        assert(j >= 1 && j - 1 >= l ==> m.ends[j - 1] < m.ends[k - 1]);
    }
    assert forall|k: int|
        0 <= k < m2.ends.len() implies 0 <= #[trigger] m2.ends[k] <= t2.len() && (m2.ends[k]
        == t2.len() || t2[m2.ends[k]] == '\n') by {
        if k < l {
            assert(t2[m.ends[k]] == m.text[m.ends[k]]);
        } else if k == l {
            assert(t2[i] == '\n');
        } else {
            if m.ends[k - 1] < m.text.len() {
                assert(t2[m.ends[k - 1] + 1] == m.text[m.ends[k - 1]]);
            }
        }
    }
    assert forall|k: int, p: int|
        #![trigger m2.ends[k], m2.text[p]]
        0 <= k < m2.ends.len() && m2.line_start(k) <= p < m2.ends[k] implies m2.text[p]
        != '\n' by {
        if k < l {
            assert(k <= l - 1 ==> m.ends[k] <= m.ends[l - 1]);
            assert(m.text[p] != '\n');
        } else if k == l {
            assert(m.line_start(l) <= p < i);
            assert(p < m.ends[l]);
            assert(m.text[p] != '\n');
        } else {
            assert(l <= k - 1 ==> m.ends[l] <= m.ends[k - 1]);
            assert(p > i);
            assert(m.line_start(k - 1) <= p - 1 < m.ends[k - 1]);
            assert(m.text[p - 1] != '\n');
        }
    }
    if i <= cur {
        if m.line == l {
            assert(m2.line_width(l + 1) == m.ends[l] - i);
        } else {
            assert(m.line > l) by {
                if m.line < l {
                    assert(m.ends[m.line] <= m.ends[l - 1]);
                }
            }
            assert(m2.line_width(m.line + 1) == m.line_width(m.line));
        }
    } else {
        assert(!(l == m.line && c <= m.col));
        if m.line < l {
            assert(m2.line_width(m.line) == m.line_width(m.line));
        } else if m.line == l {
            assert(m2.line_width(l) == c);
            assert(c > m.col);
        } else {
            assert(m.ends[m.line - 1] >= m.ends[l]);
            assert(cur >= m.line_start(m.line));
            assert(false);
        }
    }
}

/// Insertion preserves well-formedness when the inserted character is not a
/// newline: the shifted line index stays consistent with the new text.
#[verifier::rlimit(100)]
#[verifier::spinoff_prover]
proof fn lemma_inserted_wf_other(m: CoreModel, ch: char, l: int, c: int)
    requires
        m.wf(),
        m.pos_ok(l, c),
        ch != '\n',
    ensures
        m.inserted(ch, l, c).wf(),
{
    reveal(CoreModel::inserted);
    let m2 = m.inserted(ch, l, c);
    let i = m.offset_of(l, c);
    let cur = m.cursor_offset();
    let n = m.ends.len() as int;
    let t2 = m2.text;
    assert(l >= 1 ==> m.ends[l - 1] < m.ends[l]);
    assert(m.line_start(l) <= i <= m.ends[l]);
    assert(m.line <= l - 1 ==> m.ends[m.line] <= m.ends[l - 1]);
    assert(l <= m.line - 1 ==> m.ends[l] <= m.ends[m.line - 1]);
    assert(cur <= m.ends[m.line]);
    assert(forall|p: int| 0 <= p < i ==> t2[p] == m.text[p]);
    assert(t2[i] == ch);
    assert(forall|p: int| i < p < t2.len() ==> t2[p] == m.text[p - 1]);
    assert forall|k: int| 0 <= k < l implies #[trigger] m.ends[k] < i by {
        assert(k <= l - 1 ==> m.ends[k] <= m.ends[l - 1]);
    }
    assert forall|k: int| l <= k < n implies i <= #[trigger] m.ends[k] by {
        assert(l <= k ==> m.ends[l] <= m.ends[k]);
    }
    assert forall|k: int|
        0 <= k < m2.ends.len() implies 0 <= #[trigger] m2.ends[k] <= t2.len() && (m2.ends[k]
        == t2.len() || t2[m2.ends[k]] == '\n') by {
        if k < l {
            assert(t2[m.ends[k]] == m.text[m.ends[k]]);
        } else {
            if m.ends[k] < m.text.len() {
                assert(t2[m.ends[k] + 1] == m.text[m.ends[k]]);
            }
        }
    }
    assert forall|k: int, p: int|
        #![trigger m2.ends[k], m2.text[p]]
        0 <= k < m2.ends.len() && m2.line_start(k) <= p < m2.ends[k] implies m2.text[p]
        != '\n' by {
        if k < l {
            assert(k <= l - 1 ==> m.ends[k] <= m.ends[l - 1]);
            assert(m.text[p] != '\n');
        } else if k == l {
            if p < i {
                assert(m.text[p] != '\n');
            } else if p > i {
                assert(m.line_start(l) <= p - 1 < m.ends[l]);
                assert(m.text[p - 1] != '\n');
            }
        } else {
            assert(l <= k - 1 ==> m.ends[l] <= m.ends[k - 1]);
            assert(p - 1 >= m.line_start(k));
            assert(m.text[p - 1] != '\n');
        }
    }
    if m.line < l {
        assert(m2.line_width(m.line) == m.line_width(m.line));
    } else if m.line == l {
        assert(m2.line_width(l) == m.line_width(l) + 1);
    } else {
        assert(m2.line_width(m.line) == m.line_width(m.line));
    }
}

/// Insertion preserves well-formedness: the shifted line index stays
/// consistent with the new text and the repaired cursor addresses a position
/// of it.
pub proof fn lemma_inserted_wf(m: CoreModel, ch: char, l: int, c: int)
    requires
        m.wf(),
    ensures
        m.inserted(ch, l, c).wf(),
{
    if m.pos_ok(l, c) {
        if ch == '\n' {
            lemma_inserted_wf_newline(m, l, c);
        } else {
            lemma_inserted_wf_other(m, ch, l, c);
        }
    } else {
        reveal(CoreModel::inserted);
    }
}

/// Deletion of a newline that merges two lines preserves well-formedness.
#[verifier::rlimit(100)]
#[verifier::spinoff_prover]
proof fn lemma_deleted_wf_merge(m: CoreModel, l: int, c: int)
    requires
        m.wf(),
        m.delete_ok(l, c),
        m.text[m.offset_of(l, c)] == '\n',
        l < m.line_count() - 1,
    ensures
        m.deleted(l, c).wf(),
{
    reveal(CoreModel::deleted);
    let m2 = m.deleted(l, c);
    let o = m.offset_of(l, c);
    let ch = m.text[o];
    let cur = m.cursor_offset();
    let w = m.line_width(l);
    let n = m.ends.len() as int;
    let t2 = m2.text;
    assert(l >= 1 ==> m.ends[l - 1] < m.ends[l]);
    assert(m.line_start(l) <= o <= m.ends[l]);
    assert(cur <= m.ends[m.line]);
    assert(forall|p: int| 0 <= p < o ==> t2[p] == m.text[p]);
    assert(forall|p: int| o <= p < t2.len() ==> t2[p] == m.text[p + 1]);
    assert forall|k: int| 0 <= k < l implies #[trigger] m.ends[k] < o by {
        assert(k <= l - 1 ==> m.ends[k] <= m.ends[l - 1]);
    }
    assert forall|k: int| l <= k < n implies o <= #[trigger] m.ends[k] by {
        assert(l <= k ==> m.ends[l] <= m.ends[k]);
    }
    assert(o == m.ends[l]) by {
        if o < m.ends[l] {
            assert(m.text[o] != '\n');
        }
    }
    assert forall|j: int, k: int|
        0 <= j < k < m2.ends.len() implies #[trigger] m2.ends[j] < #[trigger] m2.ends[k] by {
        assert(j >= l ==> m.ends[j + 1] < m.ends[k + 1]);
    }
    assert forall|k: int|
        0 <= k < m2.ends.len() implies 0 <= #[trigger] m2.ends[k] <= t2.len() && (m2.ends[k]
        == t2.len() || t2[m2.ends[k]] == '\n') by {
        if k < l {
            assert(m.ends[k] < o);
            assert(t2[m.ends[k]] == m.text[m.ends[k]]);
        } else {
            assert(m.ends[l] <= m.ends[k]);
            assert(m.ends[k + 1] > m.ends[k] >= o);
            if m.ends[k + 1] < m.text.len() {
                assert(t2[m.ends[k + 1] - 1] == m.text[m.ends[k + 1]]);
            }
        }
    }
    assert(m.ends[l] < m.ends[l + 1]);
    assert forall|k: int, p: int|
        #![trigger m2.ends[k], m2.text[p]]
        0 <= k < m2.ends.len() && m2.line_start(k) <= p < m2.ends[k] implies m2.text[p]
        != '\n' by {
        if k < l {
            assert(k <= l - 1 ==> m.ends[k] <= m.ends[l - 1]);
            assert(m.text[p] != '\n');
        } else if k == l {
            if p < o {
                assert(m.text[p] != '\n');
            } else {
                assert(m.line_start(l + 1) <= p + 1 < m.ends[l + 1]);
                assert(m.text[p + 1] != '\n');
            }
        } else {
            assert(l <= k ==> m.ends[l] <= m.ends[k]);
            assert(p >= m2.line_start(k));
            assert(m2.line_start(k) == m.ends[k] || (k >= 1 && m2.line_start(k) == m.ends[k] - 1
                + 1));
            assert(m.line_start(k + 1) <= p + 1 < m.ends[k + 1]);
            assert(m.text[p + 1] != '\n');
        }
    }
    if o < cur {
        assert(m.line >= l + 1) by {
            assert(o < m.ends[m.line]);
            if m.line <= l {
                assert(m.line <= l - 1 ==> m.ends[m.line] <= m.ends[l - 1]);
            }
        }
        if m.line - 1 == l {
            assert(cur == o + 1 + m.col);
            assert(m2.line_width(l) == w + m.line_width(l + 1));
        } else {
            assert(m.ends[l + 1] <= m.ends[m.line - 1]);
            assert(m2.line_width(m.line - 1) == m.line_width(m.line));
        }
    } else {
        assert(m.line <= l) by {
            if m.line > l {
                assert(m.ends[l] <= m.ends[m.line - 1]);
                assert(cur >= m.line_start(m.line));
            }
        }
        if m.line == l {
            assert(c == w);
            assert(m2.line_width(l) == w + m.line_width(l + 1));
            assert(m.line_width(l + 1) >= 0);
        } else {
            assert(m.ends[m.line] <= m.ends[l - 1]);
            assert(m2.line_width(m.line) == m.line_width(m.line));
        }
    }
}

/// Deletion of the newline that ends the whole text preserves
/// well-formedness: the boundaries keep their places and the last one
/// becomes the sentinel.
#[verifier::rlimit(100)]
#[verifier::spinoff_prover]
proof fn lemma_deleted_wf_trailing(m: CoreModel, l: int, c: int)
    requires
        m.wf(),
        m.delete_ok(l, c),
        m.text[m.offset_of(l, c)] == '\n',
        l == m.line_count() - 1,
    ensures
        m.deleted(l, c).wf(),
{
    reveal(CoreModel::deleted);
    let m2 = m.deleted(l, c);
    let o = m.offset_of(l, c);
    let ch = m.text[o];
    let cur = m.cursor_offset();
    let w = m.line_width(l);
    let n = m.ends.len() as int;
    let t2 = m2.text;
    assert(l >= 1 ==> m.ends[l - 1] < m.ends[l]);
    assert(m.line_start(l) <= o <= m.ends[l]);
    assert(cur <= m.ends[m.line]);
    assert(forall|p: int| 0 <= p < o ==> t2[p] == m.text[p]);
    assert(forall|p: int| o <= p < t2.len() ==> t2[p] == m.text[p + 1]);
    assert forall|k: int| 0 <= k < l implies #[trigger] m.ends[k] < o by {
        assert(k <= l - 1 ==> m.ends[k] <= m.ends[l - 1]);
    }
    assert forall|k: int| l <= k < n implies o <= #[trigger] m.ends[k] by {
        assert(l <= k ==> m.ends[l] <= m.ends[k]);
    }
    assert(o == m.ends[l]) by {
        if o < m.ends[l] {
            assert(m.text[o] != '\n');
        }
    }
    assert(o == m.ends[n - 1]);
    assert(o == m.text.len() - 1) by {
        assert(m.text.len() - 1 <= m.ends[n - 1] <= m.text.len());
    }
    assert forall|k: int|
        0 <= k < m2.ends.len() implies 0 <= #[trigger] m2.ends[k] <= t2.len() && (m2.ends[k]
        == t2.len() || t2[m2.ends[k]] == '\n') by {
        assert(m.ends[k] <= m.ends[n - 1]);
        if k < n - 1 {
            assert(m.ends[k] < m.ends[n - 1]);
            assert(t2[m.ends[k]] == m.text[m.ends[k]]);
        }
    }
    assert forall|k: int, p: int|
        #![trigger m2.ends[k], m2.text[p]]
        0 <= k < m2.ends.len() && m2.line_start(k) <= p < m2.ends[k] implies m2.text[p]
        != '\n' by {
        assert(m.ends[k] <= m.ends[n - 1]);
        assert(p < o);
        assert(m.text[p] != '\n');
    }
    assert(o < cur ==> false);
    assert(m.line <= l);
    if m.line == l {
        assert(m2.line_width(l) == w);
    } else {
        assert(m.ends[m.line] <= m.ends[l - 1]);
        assert(m2.line_width(m.line) == m.line_width(m.line));
    }
}

/// First half: the shifted boundaries still sit on newlines or the
/// sentinel, in ascending order.
#[verifier::rlimit(100)]
#[verifier::spinoff_prover]
proof fn lemma_deleted_wf_other_bounds(m: CoreModel, l: int, c: int)
    requires
        m.wf(),
        m.delete_ok(l, c),
        m.text[m.offset_of(l, c)] != '\n',
    ensures
        ({
            let m2 = m.deleted(l, c);
            forall|k: int|
                0 <= k < m2.ends.len() ==> 0 <= #[trigger] m2.ends[k] <= m2.text.len() && (
                m2.ends[k] == m2.text.len() || m2.text[m2.ends[k]] == '\n')
        }),
{
    reveal(CoreModel::deleted);
    let m2 = m.deleted(l, c);
    let o = m.offset_of(l, c);
    let ch = m.text[o];
    let cur = m.cursor_offset();
    let w = m.line_width(l);
    let n = m.ends.len() as int;
    let t2 = m2.text;
    assert(l >= 1 ==> m.ends[l - 1] < m.ends[l]);
    assert(m.line_start(l) <= o <= m.ends[l]);
    assert(forall|p: int| 0 <= p < o ==> t2[p] == m.text[p]);
    assert(forall|p: int| o <= p < t2.len() ==> t2[p] == m.text[p + 1]);
    assert forall|k: int| 0 <= k < l implies #[trigger] m.ends[k] < o by {
        assert(k <= l - 1 ==> m.ends[k] <= m.ends[l - 1]);
    }
    assert forall|k: int| l <= k < n implies o <= #[trigger] m.ends[k] by {
        assert(l <= k ==> m.ends[l] <= m.ends[k]);
    }
    assert(c < w) by {
        if c == w {
            assert(o == m.ends[l]);
            assert(o < m.text.len());
        }
    }
    assert(o < m.ends[l]);
    assert forall|k: int|
        0 <= k < m2.ends.len() implies 0 <= #[trigger] m2.ends[k] <= t2.len() && (m2.ends[k]
        == t2.len() || t2[m2.ends[k]] == '\n') by {
        if k < l {
            assert(t2[m.ends[k]] == m.text[m.ends[k]]);
        } else {
            assert(m.ends[k] > o) by {
                if m.ends[k] == o {
                    assert(m.text[o] != '\n' && o < m.text.len());
                }
            }
            if m.ends[k] < m.text.len() {
                assert(t2[m.ends[k] - 1] == m.text[m.ends[k]]);
            }
        }
    }
}

/// Second half: no newline sits strictly inside any line of the shortened
/// text.
#[verifier::rlimit(100)]
#[verifier::spinoff_prover]
proof fn lemma_deleted_wf_other_inner(m: CoreModel, l: int, c: int)
    requires
        m.wf(),
        m.delete_ok(l, c),
        m.text[m.offset_of(l, c)] != '\n',
    ensures
        ({
            let m2 = m.deleted(l, c);
            forall|k: int, i: int|
                #![trigger m2.ends[k], m2.text[i]]
                0 <= k < m2.ends.len() && m2.line_start(k) <= i < m2.ends[k] ==> m2.text[i]
                    != '\n'
        }),
{
    reveal(CoreModel::deleted);
    let m2 = m.deleted(l, c);
    let o = m.offset_of(l, c);
    let ch = m.text[o];
    let cur = m.cursor_offset();
    let w = m.line_width(l);
    let n = m.ends.len() as int;
    let t2 = m2.text;
    assert(l >= 1 ==> m.ends[l - 1] < m.ends[l]);
    assert(m.line_start(l) <= o <= m.ends[l]);
    assert(forall|p: int| 0 <= p < o ==> t2[p] == m.text[p]);
    assert(forall|p: int| o <= p < t2.len() ==> t2[p] == m.text[p + 1]);
    assert forall|k: int| 0 <= k < l implies #[trigger] m.ends[k] < o by {
        assert(k <= l - 1 ==> m.ends[k] <= m.ends[l - 1]);
    }
    assert forall|k: int| l <= k < n implies o <= #[trigger] m.ends[k] by {
        assert(l <= k ==> m.ends[l] <= m.ends[k]);
    }
    assert(c < w) by {
        if c == w {
            assert(o == m.ends[l]);
            assert(o < m.text.len());
        }
    }
    assert(o < m.ends[l]);
    assert forall|k: int, p: int|
        #![trigger m2.ends[k], m2.text[p]]
        0 <= k < m2.ends.len() && m2.line_start(k) <= p < m2.ends[k] implies m2.text[p]
        != '\n' by {
        if k < l {
            assert(k <= l - 1 ==> m.ends[k] <= m.ends[l - 1]);
            assert(m.text[p] != '\n');
        } else if k == l {
            if p < o {
                assert(m.text[p] != '\n');
            } else {
                assert(m.line_start(l) <= p + 1 < m.ends[l]);
                assert(m.text[p + 1] != '\n');
            }
        } else {
            assert(l <= k - 1 ==> m.ends[l] <= m.ends[k - 1]);
            assert(p + 1 >= m.line_start(k));
            assert(m.line_start(k) <= p + 1 < m.ends[k]);
            assert(m.text[p + 1] != '\n');
        }
    }
}

/// Deletion of a character other than a newline preserves well-formedness.
#[verifier::rlimit(100)]
#[verifier::spinoff_prover]
proof fn lemma_deleted_wf_other(m: CoreModel, l: int, c: int)
    requires
        m.wf(),
        m.delete_ok(l, c),
        m.text[m.offset_of(l, c)] != '\n',
    ensures
        m.deleted(l, c).wf(),
{
    lemma_deleted_wf_other_bounds(m, l, c);
    lemma_deleted_wf_other_inner(m, l, c);
    reveal(CoreModel::deleted);
    let m2 = m.deleted(l, c);
    let o = m.offset_of(l, c);
    let ch = m.text[o];
    let cur = m.cursor_offset();
    let w = m.line_width(l);
    let n = m.ends.len() as int;
    let t2 = m2.text;
    assert(l >= 1 ==> m.ends[l - 1] < m.ends[l]);
    assert(m.line_start(l) <= o <= m.ends[l]);
    assert(forall|p: int| 0 <= p < o ==> t2[p] == m.text[p]);
    assert(forall|p: int| o <= p < t2.len() ==> t2[p] == m.text[p + 1]);
    assert forall|k: int| 0 <= k < l implies #[trigger] m.ends[k] < o by {
        assert(k <= l - 1 ==> m.ends[k] <= m.ends[l - 1]);
    }
    assert forall|k: int| l <= k < n implies o <= #[trigger] m.ends[k] by {
        assert(l <= k ==> m.ends[l] <= m.ends[k]);
    }
    assert(c < w) by {
        if c == w {
            assert(o == m.ends[l]);
            assert(o < m.text.len());
        }
    }
    assert(o < m.ends[l]);
    assert(!(ch == '\n' && o < cur));
    assert(cur <= m.ends[m.line]);
    if m.line < l {
        assert(m.ends[m.line] <= m.ends[l - 1]);
        assert(m2.line_width(m.line) == m.line_width(m.line));
    } else if m.line == l {
        assert(m2.line_width(l) == w - 1);
        if c >= m.col {
            assert(m.col <= c <= w - 1);
        }
    } else {
        assert(m2.line_width(m.line) == m.line_width(m.line));
    }
}

/// Deletion preserves well-formedness: the shifted line index stays
/// consistent with the shortened text and the repaired cursor addresses a
/// position of it.
pub proof fn lemma_deleted_wf(m: CoreModel, l: int, c: int)
    requires
        m.wf(),
    ensures
        m.deleted(l, c).wf(),
{
    if m.delete_ok(l, c) {
        if m.text[m.offset_of(l, c)] == '\n' {
            if l < m.line_count() - 1 {
                lemma_deleted_wf_merge(m, l, c);
            } else {
                lemma_deleted_wf_trailing(m, l, c);
            }
        } else {
            lemma_deleted_wf_other(m, l, c);
        }
    } else {
        reveal(CoreModel::deleted);
    }
}

/// The first offset at or past `from` whose character's membership in `cls`
/// equals `want`; `None` when no such offset exists before the end of `t`.
pub open spec fn scan_first(t: Seq<char>, from: int, cls: CharClass, want: bool) -> Option<int>
    decreases t.len() - from,
        when from <= t.len()
{
    if from < 0 || from >= t.len() {
        None
    } else if cls.matches(t[from]) == want {
        Some(from)
    } else {
        scan_first(t, from + 1, cls, want)
    }
}

/// The last offset at or before `from` whose character's membership in `cls`
/// equals `want`; `None` when no such offset exists.
pub open spec fn scan_last(t: Seq<char>, from: int, cls: CharClass, want: bool) -> Option<int>
    decreases from + 1,
        when from >= -1
{
    if from < 0 || from >= t.len() {
        None
    } else if cls.matches(t[from]) == want {
        Some(from)
    } else {
        scan_last(t, from - 1, cls, want)
    }
}

/// What a forward scan returns: the first qualifying offset, every offset
/// before it not qualifying; or nothing, when no offset qualifies.
pub proof fn lemma_scan_first_props(t: Seq<char>, from: int, cls: CharClass, want: bool)
    requires
        0 <= from <= t.len(),
    ensures
        match scan_first(t, from, cls, want) {
            None => forall|j: int| from <= j < t.len() ==> cls.matches(#[trigger] t[j]) != want,
            Some(j) => from <= j < t.len() && cls.matches(t[j]) == want && (forall|p: int|
                from <= p < j ==> cls.matches(#[trigger] t[p]) != want),
        },
    decreases t.len() - from,
{
    if from < t.len() && cls.matches(t[from]) != want {
        lemma_scan_first_props(t, from + 1, cls, want);
    }
}

/// What a backward scan returns: the last qualifying offset, every offset
/// after it (up to the scan's start) not qualifying; or nothing.
pub proof fn lemma_scan_last_props(t: Seq<char>, from: int, cls: CharClass, want: bool)
    requires
        -1 <= from < t.len(),
    ensures
        match scan_last(t, from, cls, want) {
            None => forall|j: int| 0 <= j <= from ==> cls.matches(#[trigger] t[j]) != want,
            Some(j) => 0 <= j <= from && cls.matches(t[j]) == want && (forall|p: int|
                j < p <= from ==> cls.matches(#[trigger] t[p]) != want),
        },
    decreases from + 1,
{
    if from >= 0 && cls.matches(t[from]) != want {
        lemma_scan_last_props(t, from - 1, cls, want);
    }
}

/// Which line the scan for `line_of` lands on: the first line, at or past
/// the starting line, whose boundary reaches `off` (or the very last line).
pub proof fn lemma_line_of_from_is(m: CoreModel, off: int, k0: int, k: int)
    requires
        m.index_ok(),
        0 <= k0 <= k < m.line_count(),
        forall|j: int| k0 <= j < k ==> m.ends[j] < off,
        off <= m.ends[k] || k == m.line_count() - 1,
    ensures
        m.line_of_from(off, k0) == k,
    decreases k - k0,
{
    if k0 < k {
        assert(m.ends[k0] < off);
        lemma_line_of_from_is(m, off, k0 + 1, k);
    }
}

/// Unrolling an iterated insertion from the other end: inserting the
/// characters of `t` equals inserting all but its first character, and then
/// its first character.
pub proof fn lemma_inserted_string_step(m: CoreModel, t: Seq<char>, l: int, c: int)
    requires
        t.len() > 0,
    ensures
        m.inserted_string(t, l, c) == m.inserted_string(t.drop_first(), l, c).inserted(
            t.first(),
            l,
            c,
        ),
    decreases t.len(),
{
    reveal(CoreModel::inserted_string);
    let m1 = m.inserted(t.last(), l, c);
    assert(m.inserted_string(t, l, c) == m1.inserted_string(t.drop_last(), l, c));
    if t.len() == 1 {
        assert(t.drop_last() =~= Seq::<char>::empty());
        assert(t.drop_first() =~= Seq::<char>::empty());
        assert(t.first() == t.last());
        assert(m1.inserted_string(t.drop_last(), l, c) == m1);
        assert(m.inserted_string(t.drop_first(), l, c) == m);
    } else {
        lemma_inserted_string_step(m1, t.drop_last(), l, c);
        assert(t.drop_last().drop_first() =~= t.drop_first().drop_last());
        assert(t.drop_last().first() == t.first());
        assert(t.drop_first().last() == t.last());
        assert(t.drop_first().len() > 0);
        assert(m.inserted_string(t.drop_first(), l, c) == m1.inserted_string(
            t.drop_first().drop_last(),
            l,
            c,
        ));
    }
}

/// Unrolling an iterated deletion from the other end: deleting `n + 1` times
/// equals deleting `n` times and then once more.
pub proof fn lemma_deleted_n_step(m: CoreModel, l: int, c: int, n: nat)
    ensures
        m.deleted_n(l, c, n).deleted(l, c) == m.deleted_n(l, c, n + 1),
    decreases n,
{
    reveal(CoreModel::deleted_n);
    let m1 = m.deleted(l, c);
    assert(m.deleted_n(l, c, n + 1) == m1.deleted_n(l, c, n));
    if n == 0 {
        assert(m.deleted_n(l, c, 0) == m);
        assert(m1.deleted_n(l, c, 0) == m1);
    } else {
        lemma_deleted_n_step(m1, l, c, (n - 1) as nat);
        assert(m.deleted_n(l, c, n) == m1.deleted_n(l, c, (n - 1) as nat));
    }
}

/// One deletion at a deletable target keeps the target deletable land:
/// the target still addresses a position, at the same offset, and the text
/// has lost exactly the character that sat at that offset.
#[verifier::rlimit(100)]
pub proof fn lemma_deleted_keeps_target(m: CoreModel, l: int, c: int)
    requires
        m.wf(),
        m.pos_ok(l, c),
        m.offset_of(l, c) < m.text.len(),
    ensures
        m.deleted(l, c).wf(),
        m.deleted(l, c).pos_ok(l, c),
        m.deleted(l, c).offset_of(l, c) == m.offset_of(l, c),
        m.deleted(l, c).text == m.text.remove(m.offset_of(l, c)),
        m.deleted(l, c).text.len() == m.text.len() - 1,
{
    reveal(CoreModel::deleted);
    lemma_deleted_wf(m, l, c);
    let o = m.offset_of(l, c);
    let m1 = m.deleted(l, c);
    let ch = m.text[o];
    let w = m.line_width(l);
    assert(l >= 1 ==> m.ends[l - 1] < m.ends[l]);
    assert(0 <= o <= m.ends[l]);
    if ch == '\n' {
        assert(o == m.ends[l]) by {
            if o < m.ends[l] {
                assert(m.text[o] != '\n');
            }
        }
        if l < m.line_count() - 1 {
            assert(m1.line_width(l) == w + m.line_width(l + 1));
            assert(m.ends[l] < m.ends[l + 1]);
        } else {
            assert(m1.line_width(l) == w);
        }
    } else {
        assert(c < w) by {
            if c == w {
                assert(o == m.ends[l]);
                assert(o < m.text.len());
            }
        }
        assert(m1.line_width(l) == w - 1);
    }
    assert(m1.pos_ok(l, c));
    assert(m1.offset_of(l, c) == o);
}

/// A take of everything before a removed index is unaffected by the removal.
proof fn lemma_remove_take<A>(s: Seq<A>, o: int)
    requires
        0 <= o < s.len(),
    ensures
        s.remove(o).take(o) == s.take(o),
{
    assert(s.remove(o).take(o) =~= s.take(o));
}

/// A skip past a removed index drops one more element of the original.
proof fn lemma_remove_skip<A>(s: Seq<A>, o: int, p: int)
    requires
        0 <= o <= p < s.len(),
    ensures
        s.remove(o).skip(p) == s.skip(p + 1),
{
    assert(s.remove(o).skip(p) =~= s.skip(p + 1));
}

/// A sequence is its take up to an index followed by its skip from it.
proof fn lemma_take_skip<A>(s: Seq<A>, o: int)
    requires
        0 <= o <= s.len(),
    ensures
        s.take(o) + s.skip(o) == s,
{
    assert(s.take(o) + s.skip(o) =~= s);
}

/// Deleting `n` times at a position whose offset is followed by at least `n`
/// characters removes exactly those characters, and nothing else, from the
/// text; well-formedness is preserved throughout.
#[verifier::rlimit(100)]
pub proof fn lemma_deleted_n_effect(m: CoreModel, l: int, c: int, n: nat)
    requires
        m.wf(),
        m.pos_ok(l, c),
        m.offset_of(l, c) + n <= m.text.len(),
    ensures
        m.deleted_n(l, c, n).wf(),
        m.deleted_n(l, c, n).text == m.text.take(m.offset_of(l, c)) + m.text.skip(
            m.offset_of(l, c) + n,
        ),
    decreases n,
{
    reveal(CoreModel::deleted_n);
    let o = m.offset_of(l, c);
    assert(l >= 1 ==> m.ends[l - 1] < m.ends[l]);
    assert(0 <= o <= m.ends[l]);
    assert(m.ends[l] <= m.text.len());
    if n == 0 {
        assert(m.deleted_n(l, c, 0) == m);
        lemma_take_skip(m.text, o);
    } else {
        assert(m.delete_ok(l, c));
        lemma_deleted_keeps_target(m, l, c);
        let m1 = m.deleted(l, c);
        lemma_deleted_n_effect(m1, l, c, (n - 1) as nat);
        assert(m.deleted_n(l, c, n) == m1.deleted_n(l, c, (n - 1) as nat));
        lemma_remove_take(m.text, o);
        lemma_remove_skip(m.text, o, o + n - 1);
    }
}

/// The offsets of the newlines of `t`, in ascending order.
pub open spec fn newline_positions(t: Seq<char>) -> Seq<int>
    decreases t.len(),
{
    if t.len() == 0 {
        Seq::empty()
    } else if t.last() == '\n' {
        newline_positions(t.drop_last()).push(t.len() - 1)
    } else {
        newline_positions(t.drop_last())
    }
}

/// The canonical line index of `t`: the offsets of its newlines, followed by
/// the sentinel `t.len()` when `t` does not end with a newline.
pub open spec fn line_index(t: Seq<char>) -> Seq<int> {
    if t.len() > 0 && t.last() == '\n' {
        newline_positions(t)
    } else {
        newline_positions(t).push(t.len() as int)
    }
}

/// The model a text and a cursor are loaded into: the text together with its
/// canonical line index.
pub open spec fn canonical(t: Seq<char>, line: int, col: int) -> CoreModel {
    CoreModel { text: t, ends: line_index(t), line, col }
}

/// The newline offsets of a text are exactly the offsets of its `'\n'`
/// characters, listed in strictly ascending order.
pub proof fn lemma_newline_positions_props(t: Seq<char>)
    ensures
        forall|k: int|
            0 <= k < newline_positions(t).len() ==> 0 <= #[trigger] newline_positions(t)[k]
                < t.len() && t[newline_positions(t)[k]] == '\n',
        forall|j: int, k: int|
            0 <= j < k < newline_positions(t).len() ==> #[trigger] newline_positions(t)[j]
                < #[trigger] newline_positions(t)[k],
        forall|i: int|
            0 <= i < t.len() && t[i] == '\n' ==> exists|k: int|
                0 <= k < newline_positions(t).len() && newline_positions(t)[k] == i,
    decreases t.len(),
{
    if t.len() == 0 {
    } else {
        let t0 = t.drop_last();
        let np = newline_positions(t);
        let np0 = newline_positions(t0);
        lemma_newline_positions_props(t0);
        assert(forall|e: int| 0 <= e < t0.len() ==> t[e] == #[trigger] t0[e]);
        assert forall|k: int|
            0 <= k < np.len() implies 0 <= #[trigger] np[k] < t.len() && t[np[k]] == '\n' by {
            if k < np0.len() {
                assert(np[k] == np0[k]);
                assert(t0[np0[k]] == '\n');
            } else {
                assert(t.last() == '\n');
                assert(np[k] == t.len() - 1);
            }
        }
        assert forall|j: int, k: int|
            0 <= j < k < np.len() implies #[trigger] np[j] < #[trigger] np[k] by {
            if k < np0.len() {
                assert(np[j] == np0[j] && np[k] == np0[k]);
            } else {
                assert(np[j] == np0[j]);
                assert(np0[j] < t0.len());
                assert(np[k] == t.len() - 1);
            }
        }
        assert forall|i: int| 0 <= i < t.len() && t[i] == '\n' implies exists|k: int|
            0 <= k < np.len() && np[k] == i by {
            if i < t.len() - 1 {
                assert(t0[i] == '\n');
                let k = choose|k: int| 0 <= k < np0.len() && np0[k] == i;
                assert(np[k] == i);
            } else {
                assert(t.last() == '\n');
                assert(np.last() == i);
            }
        }
    }
}

/// A text's canonical line index is consistent with the text, whatever the
/// cursor.
pub proof fn lemma_canonical_index_ok(t: Seq<char>, line: int, col: int)
    ensures
        canonical(t, line, col).index_ok(),
{
    let m = canonical(t, line, col);
    lemma_newline_positions_props(t);
    let np = newline_positions(t);
    if t.len() > 0 && t.last() == '\n' {
        assert(np.last() == t.len() - 1) by {
            lemma_last_newline_position(t);
        }
    }
    assert forall|k: int, i: int|
        #![trigger m.ends[k], m.text[i]]
        0 <= k < m.ends.len() && m.line_start(k) <= i < m.ends[k] implies m.text[i] != '\n' by {
        if m.text[i] == '\n' {
            let j = choose|j: int| 0 <= j < np.len() && np[j] == i;
            assert(m.ends[j] == i);
            if j <= k - 1 {
                assert(m.ends[j] < m.ends[k - 1] || j == k - 1);
                assert(m.ends[j] < m.line_start(k));
            } else {
                assert(k <= j);
                assert(k < j ==> m.ends[k] < m.ends[j]);
                assert(m.ends[k] <= m.ends[j]);
            }
        }
    }
}

/// A text ending with a newline lists that newline last among its newline
/// offsets.
pub proof fn lemma_last_newline_position(t: Seq<char>)
    requires
        t.len() > 0,
        t.last() == '\n',
    ensures
        newline_positions(t).len() > 0,
        newline_positions(t).last() == t.len() - 1,
{
}


/// The cursor invariant: in a well-formed state the cursor's line exists
/// and its column does not pass that line's width. Every constructor
/// establishes well-formedness and every operation preserves it, so this
/// holds after any sequence of operations.
pub proof fn lemma_cursor_in_range(m: CoreModel)
    requires
        m.wf(),
    ensures
        0 <= m.line < m.line_count(),
        0 <= m.col <= m.line_width(m.line),
{
}

/// Offset/position round trip: converting a valid `(line, column)` pair to
/// its absolute offset and back yields the same pair.
pub proof fn lemma_position_offset_round_trip(m: CoreModel, l: int, c: int)
    requires
        m.index_ok(),
        m.pos_ok(l, c),
    ensures
        m.pos_at(m.offset_of(l, c)) == (Position { line: l as usize, column: c as usize }),
{
    let off = m.offset_of(l, c);
    assert(l >= 1 ==> m.ends[l - 1] < m.ends[l]);
    assert forall|j: int| 0 <= j < l implies m.ends[j] < off by {
        assert(j <= l - 1 ==> m.ends[j] <= m.ends[l - 1]);
    }
    lemma_line_of_from_is(m, off, 0, l);
}

/// An empty buffer still has exactly one line, and that line is empty.
pub proof fn lemma_empty_buffer_one_line(m: CoreModel)
    requires
        m.index_ok(),
        m.text.len() == 0,
    ensures
        m.line_count() == 1,
        m.line_width(0) == 0,
{
    assert(m.ends[m.ends.len() - 1] == 0);
    if m.ends.len() >= 2 {
        assert(m.ends[0] < m.ends[m.ends.len() - 1]);
        assert(m.ends[0] >= 0);
    }
}

/// Inserting an element and removing it again at the same index leaves a
/// sequence unchanged.
proof fn lemma_seq_insert_remove<A>(s: Seq<A>, i: int, a: A)
    requires
        0 <= i <= s.len(),
    ensures
        s.insert(i, a).remove(i) == s,
{
    assert(s.insert(i, a).remove(i) =~= s);
}

/// Text and line index of a newline insertion are restored by deletion at
/// the same target.
#[verifier::rlimit(100)]
#[verifier::spinoff_prover]
proof fn lemma_insert_delete_inverse_newline_state(m: CoreModel, l: int, c: int)
    requires
        m.wf(),
        m.pos_ok(l, c),
    ensures
        m.inserted('\n', l, c).deleted(l, c).text == m.text,
        m.inserted('\n', l, c).deleted(l, c).ends == m.ends,
{
    reveal(CoreModel::inserted);
    reveal(CoreModel::deleted);
    let ch = '\n';
    let m1 = m.inserted(ch, l, c);
    let i = m.offset_of(l, c);
    let cur = m.cursor_offset();
    let n = m.ends.len() as int;
    assert(l >= 1 ==> m.ends[l - 1] < m.ends[l]);
    assert(m.line_start(l) <= i <= m.ends[l]);
    assert(cur <= m.ends[m.line]);
    assert forall|k: int| 0 <= k < l implies #[trigger] m.ends[k] < i by {
        assert(k <= l - 1 ==> m.ends[k] <= m.ends[l - 1]);
    }
    assert forall|k: int| l <= k < n implies i <= #[trigger] m.ends[k] by {
        assert(l <= k ==> m.ends[l] <= m.ends[k]);
    }
    assert(m1.line_start(l) == m.line_start(l));
    assert(m1.ends[l] == i);
    assert(m1.line_width(l) == c);
    assert(m1.pos_ok(l, c));
    assert(m1.offset_of(l, c) == i);
    assert(m1.text[i] == ch);
    assert(m1.delete_ok(l, c));
    let m2 = m1.deleted(l, c);
    lemma_seq_insert_remove(m.text, i, ch);
    assert(m2.text == m.text);
    assert((m1.line_count() - 1) as int > l);
    assert(m2.ends.len() == m.ends.len());
    assert forall|k: int| 0 <= k < n implies m2.ends[k] == m.ends[k] by {
        if k < l {
            assert(m2.ends[k] == m1.ends[k]);
        } else {
            assert(m2.ends[k] == m1.ends[k + 1] - 1);
            assert(m1.ends[k + 1] == m.ends[k] + 1);
        }
    }
    assert(m2.ends =~= m.ends);
}

/// The cursor of a newline insertion is restored by deletion at the same
/// target.
#[verifier::rlimit(100)]
#[verifier::spinoff_prover]
proof fn lemma_insert_delete_inverse_newline_cursor(m: CoreModel, l: int, c: int)
    requires
        m.wf(),
        m.pos_ok(l, c),
    ensures
        m.inserted('\n', l, c).deleted(l, c).line == m.line,
        m.inserted('\n', l, c).deleted(l, c).col == m.col,
{
    reveal(CoreModel::inserted);
    reveal(CoreModel::deleted);
    let ch = '\n';
    let m1 = m.inserted(ch, l, c);
    let i = m.offset_of(l, c);
    let cur = m.cursor_offset();
    let n = m.ends.len() as int;
    assert(l >= 1 ==> m.ends[l - 1] < m.ends[l]);
    assert(m.line_start(l) <= i <= m.ends[l]);
    assert(cur <= m.ends[m.line]);
    assert forall|k: int| 0 <= k < l implies #[trigger] m.ends[k] < i by {
        assert(k <= l - 1 ==> m.ends[k] <= m.ends[l - 1]);
    }
    assert forall|k: int| l <= k < n implies i <= #[trigger] m.ends[k] by {
        assert(l <= k ==> m.ends[l] <= m.ends[k]);
    }
    assert(m1.line_start(l) == m.line_start(l));
    assert(m1.ends[l] == i);
    assert(m1.line_width(l) == c);
    assert(m1.pos_ok(l, c));
    assert(m1.offset_of(l, c) == i);
    assert(m1.text[i] == ch);
    assert(m1.delete_ok(l, c));
    let m2 = m1.deleted(l, c);
    if i <= cur {
        assert(m1.line == m.line + 1);
        assert(m1.cursor_offset() == cur + 1) by {
            if m.line == l {
                assert(m1.line_start(l + 1) == i + 1);
                assert(m1.col == cur - i);
            } else {
                assert(m.line > l) by {
                    if m.line < l {
                        assert(m.ends[m.line] <= m.ends[l - 1]);
                    }
                }
                assert(m1.line_start(m.line + 1) == m.line_start(m.line) + 1);
            }
        }
        assert(m2.line == m.line);
        assert(m2.col == m.col) by {
            if m1.line - 1 == l {
                assert(m.line == l);
                assert(m2.col == c + (cur + 1) - i - 1);
            }
        }
    } else {
        assert(!(l == m.line && c <= m.col));
        assert(m1.line == m.line && m1.col == m.col);
        assert(m1.cursor_offset() == cur) by {
            assert(m.line <= l) by {
                if m.line > l {
                    assert(m.ends[l] <= m.ends[m.line - 1]);
                    assert(cur >= m.line_start(m.line));
                }
            }
            if m.line == l {
            } else {
                assert(m.ends[m.line] <= m.ends[l - 1]);
            }
        }
        assert(m2.line == m.line && m2.col == m.col);
    }
}

/// Inverse of a newline insertion: deleting at the same target undoes it.
proof fn lemma_insert_delete_inverse_newline(m: CoreModel, l: int, c: int)
    requires
        m.wf(),
        m.pos_ok(l, c),
    ensures
        m.inserted('\n', l, c).deleted(l, c) == m,
{
    lemma_insert_delete_inverse_newline_state(m, l, c);
    lemma_insert_delete_inverse_newline_cursor(m, l, c);
    let m2 = m.inserted('\n', l, c).deleted(l, c);
    assert(m2 == (CoreModel { text: m.text, ends: m.ends, line: m.line, col: m.col }));
    assert(m2 == m);
}

/// Text and line index of an ordinary insertion are restored by deletion at
/// the same target.
#[verifier::rlimit(100)]
#[verifier::spinoff_prover]
proof fn lemma_insert_delete_inverse_other_state(m: CoreModel, ch: char, l: int, c: int)
    requires
        m.wf(),
        m.pos_ok(l, c),
        ch != '\n',
    ensures
        m.inserted(ch, l, c).deleted(l, c).text == m.text,
        m.inserted(ch, l, c).deleted(l, c).ends == m.ends,
{
    reveal(CoreModel::inserted);
    reveal(CoreModel::deleted);
    let m1 = m.inserted(ch, l, c);
    let i = m.offset_of(l, c);
    let cur = m.cursor_offset();
    let n = m.ends.len() as int;
    assert(l >= 1 ==> m.ends[l - 1] < m.ends[l]);
    assert(m.line_start(l) <= i <= m.ends[l]);
    assert(cur <= m.ends[m.line]);
    assert forall|k: int| 0 <= k < l implies #[trigger] m.ends[k] < i by {
        assert(k <= l - 1 ==> m.ends[k] <= m.ends[l - 1]);
    }
    assert forall|k: int| l <= k < n implies i <= #[trigger] m.ends[k] by {
        assert(l <= k ==> m.ends[l] <= m.ends[k]);
    }
    assert(m1.line_start(l) == m.line_start(l));
    assert(m1.ends[l] == m.ends[l] + 1);
    assert(m1.line_width(l) == m.line_width(l) + 1);
    assert(m1.pos_ok(l, c));
    assert(m1.offset_of(l, c) == i);
    assert(m1.text[i] == ch);
    assert(m1.delete_ok(l, c));
    let m2 = m1.deleted(l, c);
    lemma_seq_insert_remove(m.text, i, ch);
    assert(m2.text == m.text);
    assert(m2.ends.len() == m.ends.len());
    assert forall|k: int| 0 <= k < n implies m2.ends[k] == m.ends[k] by {
        if k >= l {
            assert(m1.ends[k] == m.ends[k] + 1);
        }
    }
    assert(m2.ends =~= m.ends);
}

/// The cursor of an ordinary insertion is restored by deletion at the same
/// target.
#[verifier::rlimit(100)]
#[verifier::spinoff_prover]
proof fn lemma_insert_delete_inverse_other_cursor(m: CoreModel, ch: char, l: int, c: int)
    requires
        m.wf(),
        m.pos_ok(l, c),
        ch != '\n',
    ensures
        m.inserted(ch, l, c).deleted(l, c).line == m.line,
        m.inserted(ch, l, c).deleted(l, c).col == m.col,
{
    reveal(CoreModel::inserted);
    reveal(CoreModel::deleted);
    let m1 = m.inserted(ch, l, c);
    let i = m.offset_of(l, c);
    let cur = m.cursor_offset();
    let n = m.ends.len() as int;
    assert(l >= 1 ==> m.ends[l - 1] < m.ends[l]);
    assert(m.line_start(l) <= i <= m.ends[l]);
    assert(cur <= m.ends[m.line]);
    assert forall|k: int| 0 <= k < l implies #[trigger] m.ends[k] < i by {
        assert(k <= l - 1 ==> m.ends[k] <= m.ends[l - 1]);
    }
    assert forall|k: int| l <= k < n implies i <= #[trigger] m.ends[k] by {
        assert(l <= k ==> m.ends[l] <= m.ends[k]);
    }
    assert(m1.line_start(l) == m.line_start(l));
    assert(m1.ends[l] == m.ends[l] + 1);
    assert(m1.line_width(l) == m.line_width(l) + 1);
    assert(m1.pos_ok(l, c));
    assert(m1.offset_of(l, c) == i);
    assert(m1.text[i] == ch);
    assert(m1.delete_ok(l, c));
    let m2 = m1.deleted(l, c);
    if l == m.line && c <= m.col {
        assert(m1.col == m.col + 1);
        assert(m2.col == m.col);
        assert(m2.line == m.line);
    } else {
        assert(m1.line == m.line && m1.col == m.col);
        assert(!(l == m.line && c < m1.col));
        assert(m2.line == m.line && m2.col == m.col);
    }
}

/// Inverse of an ordinary insertion: deleting at the same target undoes it.
proof fn lemma_insert_delete_inverse_other(m: CoreModel, ch: char, l: int, c: int)
    requires
        m.wf(),
        m.pos_ok(l, c),
        ch != '\n',
    ensures
        m.inserted(ch, l, c).deleted(l, c) == m,
{
    lemma_insert_delete_inverse_other_state(m, ch, l, c);
    lemma_insert_delete_inverse_other_cursor(m, ch, l, c);
    let m2 = m.inserted(ch, l, c).deleted(l, c);
    assert(m2 == (CoreModel { text: m.text, ends: m.ends, line: m.line, col: m.col }));
    assert(m2 == m);
}

/// Insert/delete inverse: inserting any character at a valid position and
/// then deleting at the same position restores the buffer, the line index
/// and the cursor exactly.
pub proof fn lemma_insert_delete_inverse(m: CoreModel, ch: char, l: int, c: int)
    requires
        m.wf(),
        m.pos_ok(l, c),
    ensures
        m.inserted(ch, l, c).deleted(l, c) == m,
{
    if ch == '\n' {
        lemma_insert_delete_inverse_newline(m, l, c);
    } else {
        lemma_insert_delete_inverse_other(m, ch, l, c);
    }
}

/// Deleting repeatedly at the start of a line, as long as characters of the
/// line remain, keeps every line in place: only the target line shrinks.
pub proof fn lemma_deleted_n_within(m: CoreModel, l: int, n: nat)
    requires
        m.wf(),
        0 <= l < m.line_count(),
        n <= m.line_width(l),
    ensures
        m.deleted_n(l, 0, n).wf(),
        m.deleted_n(l, 0, n).line_count() == m.line_count(),
        m.deleted_n(l, 0, n).line_width(l) == m.line_width(l) - n,
        m.deleted_n(l, 0, n).line_start(l) == m.line_start(l),
        m.deleted_n(l, 0, n).text.len() == m.text.len() - n,
    decreases n,
{
    reveal(CoreModel::deleted_n);
    assert(l >= 1 ==> m.ends[l - 1] < m.ends[l]);
    if n == 0 {
        assert(m.deleted_n(l, 0, 0) == m);
    } else {
        reveal(CoreModel::deleted);
        let o = m.line_start(l);
        assert(o < m.ends[l]);
        assert(m.ends[l] <= m.text.len());
        assert(m.text[o] != '\n');
        assert(m.delete_ok(l, 0));
        lemma_deleted_wf(m, l, 0);
        let m1 = m.deleted(l, 0);
        assert(m1.line_count() == m.line_count());
        assert(m1.ends[l] == m.ends[l] - 1);
        assert(l >= 1 ==> m1.ends[l - 1] == m.ends[l - 1]);
        assert(m1.line_width(l) == m.line_width(l) - 1);
        lemma_deleted_n_within(m1, l, (n - 1) as nat);
        assert(m.deleted_n(l, 0, n) == m1.deleted_n(l, 0, (n - 1) as nat));
    }
}

/// Deleting a whole line and its terminating newline, by deleting at its
/// start once per character and once more for the newline, merges it away:
/// one line fewer.
pub proof fn lemma_deleted_n_whole_line(m: CoreModel, l: int)
    requires
        m.wf(),
        0 <= l < m.line_count() - 1,
    ensures
        m.deleted_n(l, 0, (m.line_width(l) + 1) as nat).wf(),
        m.deleted_n(l, 0, (m.line_width(l) + 1) as nat).line_count() == m.line_count() - 1,
{
    let w = m.line_width(l) as nat;
    assert(l >= 1 ==> m.ends[l - 1] < m.ends[l]);
    lemma_deleted_n_within(m, l, w);
    let m1 = m.deleted_n(l, 0, w);
    lemma_deleted_n_step(m, l, 0, w);
    reveal(CoreModel::deleted);
    assert(m1.line_width(l) == 0);
    assert(m1.ends[l] == m1.line_start(l));
    assert(m1.ends[l] < m1.ends[l + 1]);
    assert(m1.ends[l + 1] <= m1.text.len());
    assert(m1.ends[l] < m1.text.len());
    assert(m1.text[m1.ends[l]] == '\n') by {
        if m1.text[m1.ends[l]] != '\n' {
            assert(m1.ends[l] == m1.text.len());
        }
    }
    assert(m1.delete_ok(l, 0));
    lemma_deleted_wf(m1, l, 0);
    let m2 = m1.deleted(l, 0);
    assert(m2.line_count() == m1.line_count() - 1);
    assert(m.deleted_n(l, 0, (w + 1) as nat) == m2);
}

} // verus!
