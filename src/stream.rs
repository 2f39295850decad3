//! The line-by-line compressor and decompressor, with a window of recent
//! lines that lets a line repeated within the window go out as a `Repeat`.
use vstd::prelude::*;
use vstd::string::StringSliceAdditionalSpecFns;

use crate::checksum::{frame_checksum, is_checksum_frame, verify_checksum};
use crate::record::{compress_line, decompressed, DecodeError, Message, Repeat};

verus! {

/// The slot `d` places before `pos` in a ring of `w` slots (`1 <= d <= w`).
pub open spec fn slot(pos: int, d: int, w: int) -> int {
    if d <= pos {
        pos - d
    } else {
        pos + w - d
    }
}

pub open spec fn text_of_slot(o: Option<String>) -> Option<Seq<char>> {
    match o {
        Some(s) => Some(s@),
        None => None,
    }
}

/// The line `d` lines back in `history`, where a window of `size` lines
/// still holds it.
pub open spec fn window_back(size: nat, history: Seq<Seq<char>>, d: int) -> Option<Seq<char>> {
    if 1 <= d <= size && d <= history.len() {
        Some(history[history.len() - d])
    } else {
        None
    }
}

/// The checksum that a line states, or 0 where it has no `*HH` frame.
pub open spec fn stated_checksum(line: Seq<char>) -> u32 {
    let b = vstd::utf8::encode_utf8(line);
    if is_checksum_frame(b) {
        frame_checksum(b) as u32
    } else {
        0
    }
}

/// The last lines of a stream, in a ring of fixed size.
pub struct LineWindow {
    lines: Vec<Option<String>>,
    pos: usize,
    history: Ghost<Seq<Seq<char>>>,
}

impl LineWindow {
    /// How many lines the window holds.
    pub closed spec fn size(&self) -> nat {
        self.lines@.len()
    }

    /// Every line pushed so far, oldest first.
    pub closed spec fn history(&self) -> Seq<Seq<char>> {
        self.history@
    }

    pub open spec fn back(&self, d: int) -> Option<Seq<char>> {
        window_back(self.size(), self.history(), d)
    }

    pub closed spec fn wf(&self) -> bool {
        let w = self.lines@.len();
        let h = self.history@;
        &&& w <= u32::MAX
        &&& w > 0 ==> self.pos < w
        &&& w == 0 ==> self.pos == 0
        &&& forall|d: int|
            1 <= d <= w ==> text_of_slot(#[trigger] self.lines@[slot(self.pos as int, d, w as int)])
                == (if d <= h.len() {
                Some(h[h.len() - d])
            } else {
                None
            })
    }

    /// An empty window of `window_size` lines; 0 keeps no line.
    pub fn new(window_size: u32) -> (r: LineWindow)
        ensures
            r.wf(),
            r.size() == window_size,
            r.history() == Seq::<Seq<char>>::empty(),
    {
        let mut lines: Vec<Option<String>> = Vec::new();
        let mut i: u32 = 0;
        while i < window_size
            invariant
                i <= window_size,
                lines@.len() == i,
                forall|k: int| 0 <= k < i ==> #[trigger] lines@[k] is None,
            decreases window_size - i,
        {
            lines.push(None);
            i += 1;
        }
        let r = LineWindow { lines, pos: 0, history: Ghost(Seq::empty()) };
        assert forall|d: int| 1 <= d <= r.lines@.len() implies text_of_slot(
            #[trigger] r.lines@[slot(r.pos as int, d, r.lines@.len() as int)],
        ) == (if d <= r.history@.len() {
            Some(r.history@[r.history@.len() - d])
        } else {
            None
        }) by {
            assert(r.lines@[slot(r.pos as int, d, r.lines@.len() as int)] is None);
        }
        r
    }

    /// Adds a line as the most recent one.
    pub fn push(&mut self, line: String)
        requires
            old(self).wf(),
        ensures
            final(self).wf(),
            final(self).size() == old(self).size(),
            final(self).history() == old(self).history().push(line@),
    {
        let ghost h = self.history@.push(line@);
        let ghost old_lines = self.lines@;
        let ghost old_pos = self.pos as int;
        let w = self.lines.len();
        if w == 0 {
            self.history = Ghost(h);
            return;
        }
        let pos = self.pos;
        self.lines[pos] = Some(line);
        self.pos = if pos + 1 == w {
            0
        } else {
            pos + 1
        };
        self.history = Ghost(h);
        assert forall|d: int| 1 <= d <= w implies text_of_slot(
            #[trigger] self.lines@[slot(self.pos as int, d, w as int)],
        ) == (if d <= h.len() {
            Some(h[h.len() - d])
        } else {
            None
        }) by {
            if d == 1 {
                assert(slot(self.pos as int, d, w as int) == old_pos);
            } else {
                assert(slot(self.pos as int, d, w as int) == slot(old_pos, d - 1, w as int));
                assert(text_of_slot(old_lines[slot(old_pos, d - 1, w as int)]) == (if d - 1 <= h.len()
                    - 1 {
                    Some(h.drop_last()[h.len() - 1 - (d - 1)])
                } else {
                    None
                }));
            }
        }
    }

    /// The nearest distance back at which the window holds `line`.
    pub fn find(&self, line: &String) -> (r: Option<u32>)
        requires
            self.wf(),
        ensures
            r is Some ==> self.back(r->Some_0 as int) == Some(line@),
            r is Some ==> forall|d: int| 1 <= d < r->Some_0 ==> self.back(d) != Some(line@),
            r is None ==> forall|d: int| self.back(d) != Some(line@),
    {
        let w = self.lines.len();
        let mut j: usize = 0;
        while j < w
            invariant
                self.wf(),
                w == self.lines@.len(),
                0 <= j <= w,
                forall|e: int| 1 <= e <= j ==> self.back(e) != Some(line@),
            decreases w - j,
        {
            let d = j + 1;
            let k = if d <= self.pos {
                self.pos - d
            } else {
                self.pos + (w - d)
            };
            assert(k == slot(self.pos as int, d as int, w as int));
            let found = match &self.lines[k] {
                Some(s) => *s == *line,
                None => false,
            };
            if found {
                return Some(d as u32);
            }
            j += 1;
        }
        None
    }

    /// The line `d` lines back, where the window still holds it.
    pub fn get(&self, d: u32) -> (r: Option<String>)
        requires
            self.wf(),
        ensures
            r is Some <==> self.back(d as int) is Some,
            r is Some ==> r->Some_0@ == self.back(d as int)->Some_0,
    {
        let w = self.lines.len();
        let d = d as usize;
        if d == 0 || d > w {
            return None;
        }
        let k = if d <= self.pos {
            self.pos - d
        } else {
            self.pos + (w - d)
        };
        assert(k == slot(self.pos as int, d as int, w as int));
        match &self.lines[k] {
            Some(s) => Some(s.clone()),
            None => None,
        }
    }
}

/// What the compressor sends for `line`, given the window before it.
pub open spec fn compressed_as(size: nat, history: Seq<Seq<char>>, line: Seq<char>, m: Message) -> bool {
    &&& m is Repeat ==> window_back(size, history, m->Repeat_0.index as int) == Some(line)
        && m->Repeat_0.checksum == stated_checksum(line)
    &&& (exists|d: int| window_back(size, history, d) == Some(line)) ==> m is Repeat
    &&& !(m is Repeat) ==> decompressed(m) == Ok::<Seq<char>, DecodeError>(line)
}

/// What the decompressor makes of a record, given the window before it.
pub open spec fn decompress_step(size: nat, history: Seq<Seq<char>>, m: Message) -> Result<
    Seq<char>,
    DecodeError,
> {
    match m {
        Message::Repeat(r) => match window_back(size, history, r.index as int) {
            Some(t) => if stated_checksum(t) == r.checksum {
                Ok(t)
            } else {
                Err(DecodeError::Checksum)
            },
            None => Err(DecodeError::Repeat),
        },
        _ => decompressed(m),
    }
}

/// Where the compressor and the decompressor start from the same window,
/// what the decompressor makes of what the compressor sent is the line; a
/// line equal to one within the window goes out as a repeat.
pub proof fn lemma_stream_round_trip(
    size: nat,
    history: Seq<Seq<char>>,
    line: Seq<char>,
    m: Message,
)
    requires
        compressed_as(size, history, line, m),
    ensures
        decompress_step(size, history, m) == Ok::<Seq<char>, DecodeError>(line),
        (exists|d: int|
            1 <= d <= size && d <= history.len() && #[trigger] history[history.len() - d] == line)
            ==> m is Repeat,
{
    if exists|d: int|
        1 <= d <= size && d <= history.len() && #[trigger] history[history.len() - d] == line {
        let d = choose|d: int|
            1 <= d <= size && d <= history.len() && #[trigger] history[history.len() - d] == line;
        assert(window_back(size, history, d) == Some(line));
    }
}

/// The checksum that a line states, or 0 where it has no `*HH` frame.
fn line_checksum(line: &str) -> (r: u32)
    ensures
        r == stated_checksum(line@),
{
    match verify_checksum(line) {
        Ok((_, c)) => c as u32,
        Err(_) => 0,
    }
}

/// The sending side of a stream.
pub struct Compressor {
    window: LineWindow,
}

impl Compressor {
    pub closed spec fn window(&self) -> LineWindow {
        self.window
    }

    pub fn new(window_size: u32) -> (r: Compressor)
        ensures
            r.window().wf(),
            r.window().size() == window_size,
            r.window().history() == Seq::<Seq<char>>::empty(),
    {
        Compressor { window: LineWindow::new(window_size) }
    }

    /// The record for the next line: a `Repeat` where the window holds the
    /// same line, else what `compress_line` gives.
    pub fn compress(&mut self, line: &str) -> (r: Message)
        requires
            old(self).window().wf(),
        ensures
            final(self).window().wf(),
            final(self).window().size() == old(self).window().size(),
            final(self).window().history() == old(self).window().history().push(line@),
            compressed_as(old(self).window().size(), old(self).window().history(), line@, r),
    {
        let owned = line.to_owned();
        let found = self.window.find(&owned);
        proof {
            let w = self.window;
            if found is None {
                assert forall|d: int|
                    window_back(w.size(), w.history(), d) != Some(line@) by {
                    assert(w.back(d) != Some(line@));
                }
            }
        }
        self.window.push(owned);
        match found {
            Some(d) => Message::Repeat(Repeat { index: d, checksum: line_checksum(line) }),
            None => compress_line(line),
        }
    }
}

/// The receiving side of a stream.
pub struct Decompressor {
    window: LineWindow,
}

impl Decompressor {
    pub closed spec fn window(&self) -> LineWindow {
        self.window
    }

    pub fn new(window_size: u32) -> (r: Decompressor)
        ensures
            r.window().wf(),
            r.window().size() == window_size,
            r.window().history() == Seq::<Seq<char>>::empty(),
    {
        Decompressor { window: LineWindow::new(window_size) }
    }

    /// The line of the next record. An error is fatal to the stream: the
    /// window is left as it was.
    pub fn decompress(&mut self, m: &Message) -> (r: Result<String, DecodeError>)
        requires
            old(self).window().wf(),
        ensures
            final(self).window().wf(),
            final(self).window().size() == old(self).window().size(),
            r is Ok <==> decompress_step(
                old(self).window().size(),
                old(self).window().history(),
                *m,
            ) is Ok,
            r is Ok ==> r->Ok_0@ == decompress_step(
                old(self).window().size(),
                old(self).window().history(),
                *m,
            )->Ok_0,
            r is Ok ==> final(self).window().history() == old(self).window().history().push(
                r->Ok_0@,
            ),
            r is Err ==> r->Err_0 == decompress_step(
                old(self).window().size(),
                old(self).window().history(),
                *m,
            )->Err_0,
            r is Err ==> final(self).window().history() == old(self).window().history(),
    {
        let text = match m {
            Message::Repeat(rep) => {
                let t = match self.window.get(rep.index) {
                    Some(t) => t,
                    None => {
                        return Err(DecodeError::Repeat);
                    },
                };
                if line_checksum(t.as_str()) != rep.checksum {
                    return Err(DecodeError::Checksum);
                }
                t
            },
            _ => match m.decompress() {
                Ok(t) => t,
                Err(e) => {
                    return Err(e);
                },
            },
        };
        self.window.push(text.clone());
        Ok(text)
    }
}

} // verus!
