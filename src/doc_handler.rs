use vstd::prelude::*;
use crate::codec::{decode, lemma_split_nonempty, push_char, split_crlf, ReadError};
use vstd::utf8::{decode_utf8, valid_utf8};

verus! {

/// A step of the caret.
#[derive(Clone, Copy, Debug, PartialEq, Eq, Structural)]
pub enum Direction {
    Up,
    Down,
    Left,
    Right,
}

/// The step of the caret that a command word names: `up`, `down`, `left`
/// or `right`.
pub open spec fn direction_of(code: Seq<char>) -> Option<Direction> {
    if code == seq!['u', 'p'] {
        Some(Direction::Up)
    } else if code == seq!['d', 'o', 'w', 'n'] {
        Some(Direction::Down)
    } else if code == seq!['l', 'e', 'f', 't'] {
        Some(Direction::Left)
    } else if code == seq!['r', 'i', 'g', 'h', 't'] {
        Some(Direction::Right)
    } else {
        None
    }
}

/// One edit of the document, as the input layer sends it.
#[derive(Clone, Copy, Debug, PartialEq, Eq, Structural)]
pub enum EditOp {
    Type(char),
    Backspace,
    Enter,
    Move(Direction),
}

/// The mathematical state of a document: its lines, each a sequence of
/// Unicode scalar values, and the caret at column `col` of line `row`.
pub struct DocModel {
    pub lines: Seq<Seq<char>>,
    pub col: int,
    pub row: int,
}

impl DocModel {
    /// The buffer is never empty and the caret stands on a line, at most
    /// one past its last character.
    pub open spec fn valid(self) -> bool {
        &&& self.lines.len() >= 1
        &&& 0 <= self.row < self.lines.len()
        &&& 0 <= self.col <= self.lines[self.row].len()
    }

    /// The line the caret stands on.
    pub open spec fn current(self) -> Seq<char> {
        self.lines[self.row]
    }

    /// `c` put in at the caret, which then stands after it.
    pub open spec fn insert_char(self, c: char) -> DocModel {
        let line = self.current();
        DocModel {
            lines: self.lines.update(self.row, line.take(self.col) + seq![c] + line.skip(self.col)),
            col: self.col + 1,
            row: self.row,
        }
    }

    /// Backspace. At the start of the document nothing changes; at the start
    /// of another line that line is joined onto the end of the one above,
    /// where the caret goes to the join; elsewhere the character before the
    /// caret goes.
    pub open spec fn delete_backward(self) -> DocModel {
        if self.col == 0 && self.row == 0 {
            self
        } else if self.col == 0 {
            let above = self.lines[self.row - 1];
            DocModel {
                lines: self.lines.update(self.row - 1, above + self.current()).remove(self.row),
                col: above.len() as int,
                row: self.row - 1,
            }
        } else {
            let line = self.current();
            DocModel {
                lines: self.lines.update(self.row, line.take(self.col - 1) + line.skip(self.col)),
                col: self.col - 1,
                row: self.row,
            }
        }
    }

    /// Enter: the part of the current line from the caret on becomes a new
    /// line below it, and the caret goes to that line's start.
    pub open spec fn split_line(self) -> DocModel {
        let line = self.current();
        DocModel {
            lines: self.lines.update(self.row, line.take(self.col)).insert(
                self.row + 1,
                line.skip(self.col),
            ),
            col: 0,
            row: self.row + 1,
        }
    }

    /// The caret on line `row`, its column no further than that line's end.
    pub open spec fn caret_on(self, row: int) -> DocModel {
        DocModel {
            lines: self.lines,
            col: if self.col <= self.lines[row].len() { self.col } else { self.lines[row].len() as int },
            row,
        }
    }

    /// The caret moved one step; it stops at the edges of the document and
    /// does not wrap from one line to the next.
    pub open spec fn move_cursor(self, dir: Direction) -> DocModel {
        match dir {
            Direction::Up => if self.row == 0 { self } else { self.caret_on(self.row - 1) },
            Direction::Down => if self.row + 1 < self.lines.len() {
                self.caret_on(self.row + 1)
            } else {
                self
            },
            Direction::Left => if self.col == 0 {
                self
            } else {
                DocModel { col: self.col - 1, ..self }
            },
            Direction::Right => if self.col < self.current().len() {
                DocModel { col: self.col + 1, ..self }
            } else {
                self
            },
        }
    }

    /// The document after `op`.
    pub open spec fn apply(self, op: EditOp) -> DocModel {
        match op {
            EditOp::Type(c) => self.insert_char(c),
            EditOp::Backspace => self.delete_backward(),
            EditOp::Enter => self.split_line(),
            EditOp::Move(dir) => self.move_cursor(dir),
        }
    }

    /// The document after each of `ops` in turn.
    pub open spec fn apply_all(self, ops: Seq<EditOp>) -> DocModel
        decreases ops.len(),
    {
        if ops.len() == 0 {
            self
        } else {
            self.apply(ops[0]).apply_all(ops.drop_first())
        }
    }
}

/// Every edit takes a valid document to a valid document.
pub proof fn lemma_edit_keeps_valid(d: DocModel, op: EditOp)
    requires
        d.valid(),
    ensures
        d.apply(op).valid(),
{
}

/// Any run of edits from a valid document leaves a valid document after
/// each edit of it.
pub proof fn lemma_edits_keep_valid(d: DocModel, ops: Seq<EditOp>)
    requires
        d.valid(),
    ensures
        forall|k: int| 0 <= k <= ops.len() ==> #[trigger] d.apply_all(ops.take(k)).valid(),
    decreases ops.len(),
{
    if ops.len() > 0 {
        lemma_edit_keeps_valid(d, ops[0]);
        lemma_edits_keep_valid(d.apply(ops[0]), ops.drop_first());
        assert forall|k: int| 0 <= k <= ops.len() implies #[trigger] d.apply_all(
            ops.take(k),
        ).valid() by {
            if k > 0 {
                assert(ops.take(k).drop_first() =~= ops.drop_first().take(k - 1));
                assert(ops.take(k)[0] == ops[0]);
                assert(d.apply(ops[0]).apply_all(ops.drop_first().take(k - 1)).valid());
            } else {
                assert(ops.take(k).len() == 0);
            }
        }
    }
}

/// Typing a character and then backspacing gives back the document as it was.
pub proof fn lemma_type_then_backspace(d: DocModel, c: char)
    requires
        d.valid(),
    ensures
        d.insert_char(c).delete_backward() == d,
{
    let line = d.current();
    let typed = line.take(d.col) + seq![c] + line.skip(d.col);
    assert(typed.take(d.col) =~= line.take(d.col));
    assert(typed.skip(d.col + 1) =~= line.skip(d.col));
    assert(line.take(d.col) + line.skip(d.col) =~= line);
    assert(d.insert_char(c).delete_backward().lines =~= d.lines);
}

/// Enter and then backspace at the start of the new line gives back the
/// document as it was.
pub proof fn lemma_enter_then_backspace(d: DocModel)
    requires
        d.valid(),
    ensures
        d.split_line().delete_backward() == d,
{
    let line = d.current();
    assert(line.take(d.col) + line.skip(d.col) =~= line);
    assert(d.split_line().delete_backward().lines =~= d.lines);
}

/// The caret stops at the document's edges: up on the first line, down on
/// the last, left at a line's start and right at its end change nothing.
pub proof fn lemma_caret_stops_at_edges(d: DocModel)
    requires
        d.valid(),
    ensures
        d.row == 0 ==> d.move_cursor(Direction::Up) == d,
        d.row == d.lines.len() - 1 ==> d.move_cursor(Direction::Down) == d,
        d.col == 0 ==> d.move_cursor(Direction::Left) == d,
        d.col == d.current().len() ==> d.move_cursor(Direction::Right) == d,
{
}

/// A caret command whose word names no direction.
#[derive(Clone, Copy, Debug, PartialEq, Eq, Structural)]
pub struct InvalidCommand;

/// Whether `code` and `word` hold the same characters.
fn same_chars(code: &str, word: &str) -> (r: bool)
    ensures
        r == (code@ == word@),
{
    let n = word.unicode_len();
    if code.unicode_len() != n {
        return false;
    }
    let mut i: usize = 0;
    while i < n
        invariant
            n == word@.len(),
            n == code@.len(),
            i <= n,
            forall|j: int| 0 <= j < i ==> code@[j] == word@[j],
        decreases n - i,
    {
        if code.get_char(i) != word.get_char(i) {
            return false;
        }
        i = i + 1;
    }
    assert(code@ =~= word@);
    true
}

impl Direction {
    /// The direction that the command word `code` names, if any.
    pub fn from_code(code: &str) -> (r: Option<Direction>)
        ensures
            r == direction_of(code@),
    {
        proof {
            reveal_strlit("up");
            reveal_strlit("down");
            reveal_strlit("left");
            reveal_strlit("right");
        }
        if same_chars(code, "up") {
            assert("up"@ =~= seq!['u', 'p']);
            Some(Direction::Up)
        } else if same_chars(code, "down") {
            assert("down"@ =~= seq!['d', 'o', 'w', 'n']);
            Some(Direction::Down)
        } else if same_chars(code, "left") {
            assert("left"@ =~= seq!['l', 'e', 'f', 't']);
            Some(Direction::Left)
        } else if same_chars(code, "right") {
            assert("right"@ =~= seq!['r', 'i', 'g', 'h', 't']);
            Some(Direction::Right)
        } else {
            assert("up"@ =~= seq!['u', 'p']);
            assert("down"@ =~= seq!['d', 'o', 'w', 'n']);
            assert("left"@ =~= seq!['l', 'e', 'f', 't']);
            assert("right"@ =~= seq!['r', 'i', 'g', 'h', 't']);
            None
        }
    }
}

/// `line` with `x` put in before the character at `index`.
fn add_char(line: &str, index: usize, x: char) -> (r: String)
    requires
        index <= line@.len(),
    ensures
        r@ == line@.take(index as int) + seq![x] + line@.skip(index as int),
{
    let n = line.unicode_len();
    let mut r = String::from_str(line.substring_char(0, index));
    push_char(&mut r, x);
    r.append(line.substring_char(index, n));
    assert(line@.skip(index as int) =~= line@.subrange(index as int, n as int));
    r
}

/// `line` without the character before `index`; unchanged when `index` is 0.
fn remove_char(line: &str, index: usize) -> (r: String)
    requires
        index <= line@.len(),
    ensures
        index == 0 ==> r@ == line@,
        index > 0 ==> r@ == line@.take(index - 1) + line@.skip(index as int),
{
    if index == 0 {
        String::from_str(line)
    } else {
        let n = line.unicode_len();
        let mut r = String::from_str(line.substring_char(0, index - 1));
        r.append(line.substring_char(index, n));
        assert(line@.skip(index as int) =~= line@.subrange(index as int, n as int));
        r
    }
}

/// A document being edited: its lines and the caret.
pub struct DocHandler {
    /// The lines of the document, top to bottom.
    pub text: Vec<String>,
    /// The caret's column, counted in characters from the start of the line.
    pub ptr_x: usize,
    /// The caret's line, counted from the top.
    pub ptr_y: usize,
}

impl View for DocHandler {
    type V = DocModel;

    open spec fn view(&self) -> DocModel {
        DocModel {
            lines: self.text@.map_values(|s: String| s@),
            col: self.ptr_x as int,
            row: self.ptr_y as int,
        }
    }
}

impl DocHandler {
    /// A new, empty document: one empty line, the caret at its start.
    pub fn new() -> (r: Self)
        ensures
            r@.valid(),
            r@.lines == seq![Seq::<char>::empty()],
            r@.col == 0,
            r@.row == 0,
    {
        let text: Vec<String> = vec![String::new()];
        let r = DocHandler { text, ptr_x: 0, ptr_y: 0 };
        assert(r@.lines =~= seq![Seq::<char>::empty()]);
        r
    }

    /// The document held in the file whose bytes are `raw` (see
    /// [`decode`]), the caret at the end of its last line. Fails when `raw`
    /// is not UTF-8.
    pub fn load(raw: &[u8]) -> (r: Result<Self, ReadError>)
        ensures
            r is Ok <==> valid_utf8(raw@),
            r matches Ok(d) ==> {
                &&& d@.valid()
                &&& d@.lines == split_crlf(decode_utf8(raw@))
                &&& d@.row == d@.lines.len() - 1
                &&& d@.col == d@.lines.last().len()
            },
            r matches Err(e) ==> e == ReadError::NotUtf8,
    {
        let text = match decode(raw) {
            Ok(text) => text,
            Err(e) => return Err(e),
        };
        proof {
            lemma_split_nonempty(decode_utf8(raw@));
        }
        let last = text.len() - 1;
        let ptr_x = text[last].as_str().unicode_len();
        Ok(DocHandler { text, ptr_x, ptr_y: last })
    }

    /// Backspace: removes the character before the caret, or joins the
    /// caret's line onto the line above when the caret is at a line's start.
    pub fn backspace(&mut self)
        requires
            old(self)@.valid(),
        ensures
            final(self)@.valid(),
            final(self)@ == old(self)@.delete_backward(),
    {
        let ghost pre = self@;
        let line = remove_char(self.text[self.ptr_y].as_str(), self.ptr_x);
        if self.ptr_x == 0 && self.ptr_y == 0 {
        } else if self.ptr_x == 0 {
            self.ptr_y = self.ptr_y - 1;
            self.ptr_x = self.text[self.ptr_y].as_str().unicode_len();
            self.text[self.ptr_y].append(line.as_str());
            self.text.remove(self.ptr_y + 1);
            assert(self@.lines =~= pre.delete_backward().lines);
        } else {
            self.ptr_x = self.ptr_x - 1;
            self.text[self.ptr_y] = line;
            assert(self@.lines =~= pre.delete_backward().lines);
        }
    }

    /// Types `x` at the caret, which then stands after it.
    pub fn update(&mut self, x: char)
        requires
            old(self)@.valid(),
            old(self)@.current().len() < usize::MAX,
        ensures
            final(self)@.valid(),
            final(self)@ == old(self)@.insert_char(x),
    {
        let ghost pre = self@;
        let line = add_char(self.text[self.ptr_y].as_str(), self.ptr_x, x);
        self.text[self.ptr_y] = line;
        self.ptr_x = self.ptr_x + 1;
        assert(self@.lines =~= pre.insert_char(x).lines);
    }

    /// Enter: breaks the caret's line in two at the caret and puts the
    /// caret at the start of the second part.
    pub fn newline(&mut self)
        requires
            old(self)@.valid(),
        ensures
            final(self)@.valid(),
            final(self)@ == old(self)@.split_line(),
    {
        let ghost pre = self@;
        let line = self.text[self.ptr_y].as_str();
        let n = line.unicode_len();
        let head = String::from_str(line.substring_char(0, self.ptr_x));
        let tail = String::from_str(line.substring_char(self.ptr_x, n));
        proof {
            assert(pre.current().skip(pre.col) =~= pre.current().subrange(pre.col, n as int));
        }
        let count = self.text.len();
        assert(self.ptr_y < count);
        self.text.insert(self.ptr_y + 1, tail);
        self.text[self.ptr_y] = head;
        self.ptr_y = self.ptr_y + 1;
        self.ptr_x = 0;
        assert(self@.lines =~= pre.split_line().lines);
    }

    /// Puts the caret on line `row`, no further than that line's end.
    fn place_caret(&mut self, row: usize)
        requires
            row < old(self).text.len(),
        ensures
            final(self)@ == old(self)@.caret_on(row as int),
    {
        let n = self.text[row].as_str().unicode_len();
        self.ptr_y = row;
        if self.ptr_x > n {
            self.ptr_x = n;
        }
    }

    /// Moves the caret one step in `dir`, stopping at the document's edges.
    pub fn move_cursor(&mut self, dir: Direction)
        requires
            old(self)@.valid(),
        ensures
            final(self)@.valid(),
            final(self)@ == old(self)@.move_cursor(dir),
    {
        match dir {
            Direction::Up => {
                if self.ptr_y > 0 {
                    self.place_caret(self.ptr_y - 1);
                }
            },
            Direction::Down => {
                if self.ptr_y < self.text.len() - 1 {
                    self.place_caret(self.ptr_y + 1);
                }
            },
            Direction::Left => {
                if self.ptr_x > 0 {
                    self.ptr_x = self.ptr_x - 1;
                }
            },
            Direction::Right => {
                if self.ptr_x < self.text[self.ptr_y].as_str().unicode_len() {
                    self.ptr_x = self.ptr_x + 1;
                }
            },
        }
    }

    /// Moves the caret as the command word `code` says (`up`, `down`,
    /// `left` or `right`); any other word leaves the document as it was and
    /// is reported back.
    pub fn update_cursor(&mut self, code: &str) -> (r: Result<(), InvalidCommand>)
        requires
            old(self)@.valid(),
        ensures
            final(self)@.valid(),
            match direction_of(code@) {
                Some(dir) => r is Ok && final(self)@ == old(self)@.move_cursor(dir),
                None => r is Err && final(self)@ == old(self)@,
            },
    {
        match Direction::from_code(code) {
            Some(dir) => {
                self.move_cursor(dir);
                Ok(())
            },
            None => Err(InvalidCommand),
        }
    }
}

} // verus!
