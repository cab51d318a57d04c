//! A one-line text field: the directory path, and nothing else.
//!
//! Kept deliberately small: enough editing to type or paste a path comfortably,
//! with a horizontal window so a long path scrolls instead of overflowing.

use vstd::prelude::*;

use crate::text::{char_columns, char_width, chars_of, string_from};

verus! {

pub struct TextInput {
    characters: Vec<char>,
    /// Cursor position, counted in characters, in `0..=characters.len()`.
    cursor: usize,
    /// First visible character, so a long path scrolls with the cursor.
    offset: usize,
}

/// The width a character takes in the field: control characters take none.
pub open spec fn char_cells(c: char) -> nat {
    match char_columns(c) {
        Some(w) => w as nat,
        None => 0,
    }
}

/// The width of `chars[from..to]`.
pub open spec fn columns_between(chars: Seq<char>, from: int, to: int) -> nat
    decreases to - from,
{
    if to <= from {
        0
    } else {
        columns_between(chars, from, to - 1) + char_cells(chars[to - 1])
    }
}

/// The first offset from `o` on at which the text up to `cursor` fits in
/// `usable` columns.
pub open spec fn scrolled(chars: Seq<char>, o: int, cursor: int, usable: int) -> int
    decreases cursor - o,
{
    if o < cursor && columns_between(chars, o, cursor) > usable {
        scrolled(chars, o + 1, cursor, usable)
    } else {
        o
    }
}

/// The characters from `from` on that fit in `width` columns, once `used` are
/// taken.
pub open spec fn visible_from(chars: Seq<char>, from: int, width: int, used: int) -> Seq<char>
    decreases chars.len() - from,
{
    if 0 <= from < chars.len() && used + char_cells(chars[from]) <= width {
        seq![chars[from]] + visible_from(chars, from + 1, width, used + char_cells(chars[from]))
    } else {
        seq![]
    }
}

/// A path separator, where a word deletion stops: a folder called "season one"
/// comes off in one go.
pub open spec fn path_separator(c: char) -> bool {
    c == '/'
}

pub fn is_separator(character: char) -> (r: bool)
    ensures
        r == path_separator(character),
{
    character == '/'
}

/// The position reached going back from `c` over separators.
pub open spec fn back_over_separators(chars: Seq<char>, c: int) -> int
    decreases c,
{
    if 0 < c <= chars.len() && path_separator(chars[c - 1]) {
        back_over_separators(chars, c - 1)
    } else {
        c
    }
}

/// The position reached going back from `c` over anything but separators.
pub open spec fn back_over_segment(chars: Seq<char>, c: int) -> int
    decreases c,
{
    if 0 < c <= chars.len() && !path_separator(chars[c - 1]) {
        back_over_segment(chars, c - 1)
    } else {
        c
    }
}

/// The field after `set_value(value)`: the text replaced, the cursor at its
/// end, and the view scrolled back to the start.
pub open spec fn after_set(value: Seq<char>) -> (Seq<char>, usize, usize) {
    (value, value.len() as usize, 0usize)
}

/// The field after typing `c` at the cursor.
pub open spec fn after_insert(s: (Seq<char>, usize, usize), c: char) -> (Seq<char>, usize, usize) {
    (s.0.insert(s.1 as int, c), (s.1 + 1) as usize, s.2)
}

/// The field after deleting the character before the cursor, if there is one.
pub open spec fn after_backspace(s: (Seq<char>, usize, usize)) -> (Seq<char>, usize, usize) {
    if s.1 > 0 {
        (s.0.remove(s.1 - 1), (s.1 - 1) as usize, s.2)
    } else {
        s
    }
}

impl TextInput {
    /// The text, the cursor, and the first visible character.
    pub closed spec fn state(&self) -> (Seq<char>, usize, usize) {
        (self.characters@, self.cursor, self.offset)
    }

    /// The cursor sits inside the text, which is short enough for its width to
    /// be counted.
    pub open spec fn wf(&self) -> bool {
        self.state().1 <= self.state().0.len() && self.state().0.len() <= usize::MAX / 3
    }

    pub fn new() -> (r: TextInput)
        ensures
            r.state() == (Seq::<char>::empty(), 0usize, 0usize),
            r.wf(),
    {
        TextInput { characters: Vec::new(), cursor: 0, offset: 0 }
    }

    pub fn value(&self) -> (r: String)
        ensures
            r@ == self.state().0,
    {
        string_from(self.characters.as_slice())
    }

    /// How many characters the field holds.
    pub fn len(&self) -> (r: usize)
        ensures
            r == self.state().0.len(),
    {
        self.characters.len()
    }

    pub fn is_empty(&self) -> (r: bool)
        ensures
            r == (self.state().0.len() == 0),
    {
        self.characters.len() == 0
    }

    /// Replace the text, with the cursor at its end.
    pub fn set_value(&mut self, value: &str)
        requires
            value@.len() <= usize::MAX / 3,
        ensures
            final(self).state() == after_set(value@),
            final(self).wf(),
    {
        self.characters = chars_of(value);
        self.cursor = self.characters.len();
        self.offset = 0;
    }

    /// Type `character` at the cursor.
    pub fn insert(&mut self, character: char)
        requires
            old(self).wf(),
            old(self).state().0.len() < usize::MAX / 3,
        ensures
            final(self).state() == after_insert(old(self).state(), character),
            final(self).wf(),
    {
        self.characters.insert(self.cursor, character);
        self.cursor += 1;
    }

    /// Delete the character before the cursor, if any.
    pub fn backspace(&mut self)
        requires
            old(self).wf(),
        ensures
            final(self).state() == after_backspace(old(self).state()),
            final(self).wf(),
    {
        if self.cursor > 0 {
            self.cursor -= 1;
            self.characters.remove(self.cursor);
        }
    }

    /// Delete the character under the cursor, if any.
    pub fn delete(&mut self)
        requires
            old(self).wf(),
        ensures
            old(self).state().1 < old(self).state().0.len() ==> final(self).state() == (old(self).state().0.remove(old(self).state().1 as int), old(self).state().1, old(self).state().2),
            old(self).state().1 >= old(self).state().0.len() ==> final(self).state() == old(self).state(),
            final(self).wf(),
    {
        if self.cursor < self.characters.len() {
            self.characters.remove(self.cursor);
        }
    }

    pub fn move_left(&mut self)
        requires
            old(self).wf(),
        ensures
            final(self).state() == (old(self).state().0, if old(self).state().1 > 0 { (old(self).state().1 - 1) as usize } else { 0usize }, old(self).state().2),
            final(self).wf(),
    {
        self.cursor = if self.cursor > 0 { self.cursor - 1 } else { 0 };
    }

    pub fn move_right(&mut self)
        requires
            old(self).wf(),
        ensures
            final(self).state() == (old(self).state().0, if old(self).state().1 < old(self).state().0.len() { (old(self).state().1 + 1) as usize } else { old(self).state().0.len() as usize }, old(self).state().2),
            final(self).wf(),
    {
        self.cursor = if self.cursor < self.characters.len() { self.cursor + 1 } else { self.characters.len() };
    }

    pub fn move_home(&mut self)
        requires
            old(self).wf(),
        ensures
            final(self).state() == (old(self).state().0, 0usize, old(self).state().2),
            final(self).wf(),
    {
        self.cursor = 0;
    }

    pub fn move_end(&mut self)
        requires
            old(self).wf(),
        ensures
            final(self).state() == (old(self).state().0, old(self).state().0.len() as usize, old(self).state().2),
            final(self).wf(),
    {
        self.cursor = self.characters.len();
    }

    /// Drop the last path segment, the way `Ctrl+W` behaves in a shell: the
    /// separators before the cursor, then the segment before them.
    pub fn delete_previous_word(&mut self)
        requires
            old(self).wf(),
        ensures
            ({
                let (chars, cursor, offset) = old(self).state();
                let start = back_over_segment(chars, back_over_separators(chars, cursor as int));
                final(self).state() == (chars.take(start) + chars.skip(cursor as int), start as usize, offset)
            }),
            final(self).wf(),
    {
        let ghost chars = self.characters@;
        let ghost cursor = self.cursor as int;
        while self.cursor > 0 && is_separator(self.characters[self.cursor - 1])
            invariant
                self.wf(),
                self.state().2 == old(self).state().2,
                self.cursor <= cursor,
                self.characters@ == chars.take(self.cursor as int) + chars.skip(cursor),
                back_over_separators(chars, cursor) == back_over_separators(chars, self.cursor as int),
                chars == old(self).state().0,
                cursor == old(self).state().1,
                cursor <= chars.len(),
            decreases self.cursor,
        {
            assert(self.characters@[self.cursor - 1] == chars[self.cursor - 1]);
            self.backspace();
            assert(self.characters@ =~= chars.take(self.cursor as int) + chars.skip(cursor));
        }
        let ghost middle = self.cursor as int;
        while self.cursor > 0 && !is_separator(self.characters[self.cursor - 1])
            invariant
                self.wf(),
                self.state().2 == old(self).state().2,
                self.cursor <= middle <= cursor,
                self.characters@ == chars.take(self.cursor as int) + chars.skip(cursor),
                back_over_segment(chars, middle) == back_over_segment(chars, self.cursor as int),
                chars == old(self).state().0,
                cursor == old(self).state().1,
                cursor <= chars.len(),
            decreases self.cursor,
        {
            assert(self.characters@[self.cursor - 1] == chars[self.cursor - 1]);
            self.backspace();
            assert(self.characters@ =~= chars.take(self.cursor as int) + chars.skip(cursor));
        }
    }

    /// Display width of `characters[from..to]`.
    fn columns(&self, from: usize, to: usize) -> (r: usize)
        requires
            self.wf(),
            from <= to <= self.state().0.len(),
        ensures
            r == columns_between(self.state().0, from as int, to as int),
    {
        let mut total: usize = 0;
        let mut k: usize = from;
        while k < to
            invariant
                self.wf(),
                from <= k <= to <= self.state().0.len(),
                total == columns_between(self.state().0, from as int, k as int),
                total <= 3 * (k - from),
            decreases to - k,
        {
            let w = match char_width(self.characters[k]) {
                Some(w) => w,
                None => 0,
            };
            total = total + w;
            k += 1;
        }
        total
    }

    /// The slice that fits in `width` columns, and where the cursor sits in it.
    ///
    /// Scrolling is decided here rather than at edit time, because it depends on
    /// how wide the field ends up being drawn. One column is kept spare so the
    /// cursor at the end of the text is visible.
    pub fn view(&mut self, width: usize) -> (r: (String, usize))
        requires
            old(self).wf(),
        ensures
            final(self).wf(),
            final(self).state().0 == old(self).state().0,
            final(self).state().1 == old(self).state().1,
            width == 0 ==> r.0@ == Seq::<char>::empty() && r.1 == 0 && final(self).state().2 == old(self).state().2,
            width > 0 ==> ({
                let (chars, cursor, offset) = old(self).state();
                let usable: int = if width > 1 { width - 1 } else { 1 };
                let start = scrolled(chars, if cursor < offset { cursor as int } else { offset as int }, cursor as int, usable);
                &&& final(self).state().2 == start
                &&& r.0@ == visible_from(chars, start, width as int, 0)
                &&& r.1 == columns_between(chars, start, cursor as int)
            }),
    {
        if width == 0 {
            return (string_from(&[]), 0);
        }
        let usable = if width > 1 { width - 1 } else { 1 };
        if self.cursor < self.offset {
            self.offset = self.cursor;
        }
        let ghost first = self.offset as int;
        while self.offset < self.cursor && self.columns(self.offset, self.cursor) > usable
            invariant
                self.wf(),
                self.state().0 == old(self).state().0,
                self.state().1 == old(self).state().1,
                first <= self.offset <= self.cursor,
                scrolled(self.state().0, first, self.cursor as int, usable as int) == scrolled(self.state().0, self.offset as int, self.cursor as int, usable as int),
            decreases self.cursor - self.offset,
        {
            self.offset += 1;
        }
        let mut text: Vec<char> = Vec::new();
        let mut used: usize = 0;
        let mut k: usize = self.offset;
        while k < self.characters.len()
            invariant
                self.wf(),
                self.offset <= k <= self.state().0.len(),
                used <= width,
                visible_from(self.state().0, self.offset as int, width as int, 0) == text@ + visible_from(self.state().0, k as int, width as int, used as int),
            ensures
                visible_from(self.state().0, k as int, width as int, used as int) =~= Seq::<char>::empty(),
            decreases self.characters.len() - k,
        {
            let w = match char_width(self.characters[k]) {
                Some(w) => w,
                None => 0,
            };
            if w > width - used {
                break;
            }
            let ghost before = text@;
            used = used + w;
            text.push(self.characters[k]);
            k += 1;
            assert(before + visible_from(self.state().0, k - 1, width as int, (used - w) as int) =~= text@ + visible_from(self.state().0, k as int, width as int, used as int));
        }
        assert(text@ =~= visible_from(self.state().0, self.offset as int, width as int, 0));
        let cursor_column = self.columns(self.offset, self.cursor);
        (string_from(text.as_slice()), cursor_column)
    }
}

impl Default for TextInput {
    fn default() -> (r: TextInput)
        ensures
            r.state() == (Seq::<char>::empty(), 0usize, 0usize),
            r.wf(),
    {
        TextInput::new()
    }
}

/// A backspace right after typing a character takes exactly that character
/// away: the text, the cursor and the view are as they were before.
pub proof fn lemma_backspace_undoes_insert(s: (Seq<char>, usize, usize), c: char)
    requires
        s.1 <= s.0.len(),
        s.0.len() < usize::MAX,
    ensures
        after_backspace(after_insert(s, c)) == s,
{
    assert(s.0.insert(s.1 as int, c).remove(s.1 as int) =~= s.0);
}

/// After `set_value(value)` the field reads back `value`, is empty exactly
/// when `value` is, and has its cursor at the end.
pub proof fn lemma_set_value_reads_back(value: Seq<char>)
    requires
        value.len() <= usize::MAX,
    ensures
        after_set(value).0 == value,
        (after_set(value).0.len() == 0) == (value.len() == 0),
        after_set(value).1 == value.len(),
{
}

} // verus!
