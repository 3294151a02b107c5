//! The document buffer: a text and the length of each of its lines, both
//! addressed in codepoints.
use vstd::prelude::*;
use vstd::std_specs::iter::IteratorSpec;
use vstd::string::*;
use vstd::utf8::encode_utf8;

use crate::lines::{in_line, lemma_in_line_unique, lemma_has_line, lemma_insert_in_line, lemma_line_at, lemma_remove_in_line, lemma_start_monotone, line_lens, line_of, line_start, step};

verus! {

broadcast use vstd::string::group_string_axioms;

/// A text being edited, with the length of each of its lines kept beside it.
pub struct Text {
    text: String,
    line_lengths: Vec<usize>,
}

impl View for Text {
    type V = Seq<char>;

    closed spec fn view(&self) -> Seq<char> {
        self.text@
    }
}

impl Text {
    /// The stored line lengths agree with the lines of the text.
    pub closed spec fn wf(&self) -> bool {
        &&& self.line_lengths@.len() == line_lens(self.text@).len()
        &&& forall|i: int|
            0 <= i < self.line_lengths@.len() ==> self.line_lengths@[i] as int == #[trigger] line_lens(
                self.text@,
            )[i]
    }

    /// The length of each line of the text.
    pub open spec fn lines(&self) -> Seq<int> {
        line_lens(self@)
    }

    pub fn new(s: &str) -> (t: Text)
        ensures
            t.wf(),
            t@ == s@,
    {
        let mut t = Text { text: s.to_owned(), line_lengths: Vec::new() };
        t.refresh_line_lengths();
        t
    }

    /// Recomputes every line length from the text.
    fn refresh_line_lengths(&mut self)
        ensures
            final(self).wf(),
            final(self)@ == old(self)@,
    {
        let ghost s = self.text@;
        let n = self.text.as_str().unicode_len();
        let mut lens: Vec<usize> = Vec::new();
        lens.push(0);
        let mut it = self.text.as_str().chars();
        let mut i: usize = 0;
        assert(s.subrange(0, 0) =~= Seq::<char>::empty());
        loop
            invariant
                n == s.len(),
                i <= n,
                it.remaining() == s.subrange(i as int, s.len() as int),
                lens@.len() == line_lens(s.subrange(0, i as int)).len(),
                forall|k: int|
                    0 <= k < lens@.len() ==> lens@[k] as int == #[trigger] line_lens(
                        s.subrange(0, i as int),
                    )[k],
            ensures
                i == n,
            decreases n - i,
        {
            let ghost before = s.subrange(0, i as int);
            match it.next() {
                None => {
                    break ;
                },
                Some(c) => {
                    let ghost after = s.subrange(0, i + 1);
                    assert(after.drop_last() =~= before);
                    assert(c == s[i as int]);
                    proof {
                        lemma_has_line(before);
                    }
                    if c == '\n' {
                        lens.push(0);
                    } else {
                        let last = lens.len() - 1;
                        proof {
                            lemma_line_at(before, last as int);
                        }
                        let l = lens[last];
                        lens.set(last, l + 1);
                    }
                    assert(lens@ =~= line_lens(after).map_values(|x: int| x as usize)) by {
                        assert(line_lens(after) == step(line_lens(before), c));
                    }
                    i = i + 1;
                    assert(it.remaining() =~= s.subrange(i as int, s.len() as int));
                },
            }
        }
        assert(s.subrange(0, i as int) =~= s);
        self.line_lengths = lens;
    }
    pub fn size(&self) -> (r: usize)
        ensures
            r == self@.len(),
    {
        self.text.as_str().unicode_len()
    }

    pub fn line_count(&self) -> (r: u16)
        requires
            self.wf(),
        ensures
            r == self.lines().len() as u16,
    {
        self.line_lengths.len() as u16
    }

    pub fn get_text(&self) -> (r: &str)
        ensures
            r@ == self@,
    {
        self.text.as_str()
    }

    pub fn get_line_length(&self, line_no: usize) -> (r: usize)
        requires
            self.wf(),
        ensures
            r == if line_no < self.lines().len() {
                self.lines()[line_no as int]
            } else {
                0
            },
    {
        if line_no < self.line_lengths.len() {
            self.line_lengths[line_no]
        } else {
            0
        }
    }

    pub fn get_string_index(&self, line_no: usize, xoffset: usize) -> (r: usize)
        requires
            self.wf(),
            line_no <= self.lines().len(),
            line_start(self.lines(), line_no as int) + xoffset <= usize::MAX,
        ensures
            r == line_start(self.lines(), line_no as int) + xoffset,
    {
        let mut idx: usize = 0;
        let mut i: usize = 0;
        while i < line_no
            invariant
                self.wf(),
                line_no <= self.lines().len(),
                i <= line_no,
                idx == line_start(self.lines(), i as int),
                line_start(self.lines(), line_no as int) + xoffset <= usize::MAX,
            decreases line_no - i,
        {
            proof {
                lemma_start_monotone(self@, i + 1, line_no as int);
                lemma_line_at(self@, i as int);
            }
            idx = idx + self.line_lengths[i] + 1;
            i = i + 1;
        }
        idx + xoffset
    }

    /// The line that holds offset `index`, the end of each line included.
    fn line_at_offset(&self, index: usize) -> (r: usize)
        requires
            self.wf(),
            index <= self@.len(),
        ensures
            in_line(self.lines(), r as int, index as int),
    {
        let mut line: usize = 0;
        let mut total: usize = 0;
        let count = self.line_lengths.len();
        proof {
            lemma_has_line(self@);
        }
        loop
            invariant
                self.wf(),
                count == self.lines().len(),
                index <= self@.len(),
                line < self.lines().len(),
                total == line_start(self.lines(), line as int),
                total <= index,
            decreases self.lines().len() - line,
        {
            let len = self.line_lengths[line];
            proof {
                lemma_line_at(self@, line as int);
            }
            if index - total <= len {
                return line;
            }
            total = total + len + 1;
            line = line + 1;
        }
    }

    pub fn find_line_number(&self, index: usize) -> (r: Result<usize, &str>)
        requires
            self.wf(),
        ensures
            r is Err <==> index >= self@.len(),
            r is Err ==> r == Err::<usize, &str>("Index must be within string"),
            r is Ok ==> r->Ok_0 >= 1 && in_line(self.lines(), r->Ok_0 - 1, index as int),
    {
        if index >= self.size() {
            return Err("Index must be within string");
        }
        let count = self.line_lengths.len();
        let line = self.line_at_offset(index);
        Ok(line + 1)
    }

    pub fn get_line(&self, line_no: usize) -> (r: &str)
        requires
            self.wf(),
        ensures
            r@ == if line_no < self.lines().len() {
                line_of(self@, line_no as int)
            } else {
                Seq::<char>::empty()
            },
    {
        if line_no >= self.line_lengths.len() {
            proof {
                reveal_strlit("");
            }
            return "";
        }
        let size = self.size();
        proof {
            lemma_line_at(self@, line_no as int);
        }
        let start = self.get_string_index(line_no, 0);
        let end = start + self.line_lengths[line_no];
        self.text.as_str().substring_char(start, end)
    }

    pub fn index_to_byteoffset(&self, n: usize) -> (r: Option<usize>)
        ensures
            r == if self@.len() == 0 {
                Some(0usize)
            } else if n <= self@.len() {
                Some(encode_utf8(self@.subrange(0, n as int)).len() as usize)
            } else {
                None::<usize>
            },
    {
        let size = self.size();
        if size == 0 {
            return Some(0);
        }
        if n > size {
            return None;
        }
        Some(self.text.as_str().substring_char(0, n).len())
    }

    pub fn write_char<'a>(&mut self, c: &'a str, idx: usize) -> (r: Result<&'a str, &'a str>)
        requires
            old(self).wf(),
        ensures
            final(self).wf(),
            r is Ok <==> c@.len() == 1 && idx <= old(self)@.len(),
            r is Ok ==> r == Ok::<&str, &str>(c) && final(self)@ == old(self)@.insert(
                idx as int,
                c@[0],
            ),
            r is Err ==> final(self)@ == old(self)@,
            c@.len() == 0 ==> r == Err::<&str, &str>("Cannot push empty string."),
            c@.len() > 1 ==> r == Err::<&str, &str>("Cannot push multiple chars."),
            c@.len() == 1 && idx > old(self)@.len() ==> r == Err::<&str, &str>(
                "Index must be within string.",
            ),
    {
        let count = c.unicode_len();
        if count == 0 {
            return Err("Cannot push empty string.");
        }
        if count > 1 {
            return Err("Cannot push multiple chars.");
        }
        let size = self.size();
        if idx > size {
            return Err("Index must be within string.");
        }
        let ghost s = self@;
        let ch = c.get_char(0);
        let line = self.line_at_offset(idx);
        let new_text = {
            let t = self.text.as_str();
            let mut r = t.substring_char(0, idx).to_owned();
            r.append(c);
            r.append(t.substring_char(idx, size));
            r
        };
        assert(new_text@ =~= s.insert(idx as int, ch));
        self.text = new_text;
        let new_size = self.size();
        if ch == '\n' {
            self.refresh_line_lengths();
        } else {
            proof {
                lemma_insert_in_line(s, idx as int, ch, line as int);
                lemma_line_at(self@, line as int);
            }
            let l = self.line_lengths[line];
            self.line_lengths.set(line, l + 1);
            assert(self.line_lengths@.len() == line_lens(self.text@).len());
        }
        Ok(c)
    }

    pub fn remove_at(&mut self, idx: usize) -> (r: Result<char, &str>)
        requires
            old(self).wf(),
        ensures
            final(self).wf(),
            r is Ok <==> idx < old(self)@.len(),
            r is Ok ==> r == Ok::<char, &str>(old(self)@[idx as int]) && final(self)@ == old(
                self,
            )@.remove(idx as int),
            r is Err ==> r == Err::<char, &str>("cannot remove element not in string.")
                && final(self)@ == old(self)@,
    {
        let size = self.size();
        if idx >= size {
            return Err("cannot remove element not in string.");
        }
        let ghost s = self@;
        let line = self.line_at_offset(idx);
        let ch;
        let new_text = {
            let t = self.text.as_str();
            ch = t.get_char(idx);
            let mut r = t.substring_char(0, idx).to_owned();
            r.append(t.substring_char(idx + 1, size));
            r
        };
        assert(new_text@ =~= s.remove(idx as int));
        self.text = new_text;
        if ch == '\n' {
            self.refresh_line_lengths();
        } else {
            proof {
                lemma_remove_in_line(s, idx as int, line as int);
            }
            let l = self.line_lengths[line];
            self.line_lengths.set(line, l - 1);
            assert(self.line_lengths@.len() == line_lens(self.text@).len());
        }
        Ok(ch)
    }
}

/// Looking up the line of the offset that `get_string_index` gives for a
/// column within line `line` (its end included) finds that same line.
pub proof fn lemma_string_index_finds_line(s: Seq<char>, line: int, col: int, found: int)
    requires
        0 <= line < line_lens(s).len(),
        0 <= col <= line_lens(s)[line],
        in_line(line_lens(s), found, line_start(line_lens(s), line) + col),
    ensures
        found == line,
{
    lemma_in_line_unique(s, found, line, line_start(line_lens(s), line) + col);
}

/// Inserting a character at an offset and then removing the character at
/// that offset gives back the text as it was.
pub proof fn lemma_insert_remove_round_trip(s: Seq<char>, offset: int, c: char)
    requires
        0 <= offset <= s.len(),
    ensures
        s.insert(offset, c).remove(offset) == s,
{
    assert(s.insert(offset, c).remove(offset) =~= s);
}

} // verus!
