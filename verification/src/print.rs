//! Console output, a line at a time.

use vstd::prelude::*;
use vstd::string::*;

use crate::text;

verus! {

/// Formats into a fixed buffer so a line reaches the console in exactly one
/// write. Formatting hands over one fragment at a time, so writing straight
/// through let concurrent workers interleave *within* a line and produced output
/// like "q2: 2048 of 16384 ... using q245".
pub struct BufWriter<'a> {
    buf: &'a mut [u8],
    used: usize,
}

/// The longest line, with its newline.
pub const LINE_MAX: usize = 256;

/// How many of `len` bytes fit behind the first `used` of `cap`.
pub open spec fn fitting(used: int, cap: int, len: int) -> int {
    if len < cap - used {
        len
    } else {
        cap - used
    }
}

/// `buf` with `s`, as far as it fits, written behind the first `used` bytes.
pub open spec fn overlaid(buf: Seq<u8>, used: int, s: Seq<u8>) -> Seq<u8> {
    let n = fitting(used, buf.len() as int, s.len() as int);
    buf.take(used) + s.take(n) + buf.skip(used + n)
}

impl<'a> BufWriter<'a> {
    /// The buffer as it stands.
    pub closed spec fn buffer(&self) -> Seq<u8> {
        self.buf@
    }

    /// How much of the buffer is written.
    pub closed spec fn length(&self) -> int {
        self.used as int
    }

    /// What was written.
    pub open spec fn text(&self) -> Seq<u8> {
        self.buffer().take(self.length())
    }

    /// What holds of every writer.
    pub open spec fn wf(&self) -> bool {
        0 <= self.length() <= self.buffer().len()
    }

    pub fn new(buf: &'a mut [u8]) -> (w: Self)
        ensures
            w.wf(),
            w.buffer() == old(buf)@,
            w.length() == 0,
    {
        BufWriter { buf, used: 0 }
    }

    /// Bytes written so far. Also how a caller renders into a buffer without
    /// printing -- request heads are built this way.
    pub fn used(&self) -> (n: usize)
        ensures
            n == self.length(),
    {
        self.used
    }

    /// Writes bytes; what does not fit is left out rather than fail a diagnostic
    /// print.
    pub fn write_bytes(&mut self, s: &[u8])
        requires
            old(self).wf(),
        ensures
            final(self).wf(),
            final(self).buffer() == overlaid(old(self).buffer(), old(self).length(), s@),
            final(self).length() == old(self).length() + fitting(
                old(self).length(),
                old(self).buffer().len() as int,
                s@.len() as int,
            ),
    {
        let ghost before = self.buf@;
        let start: usize = self.used;
        let room: usize = self.buf.len() - start;
        let n: usize = if s.len() < room {
            s.len()
        } else {
            room
        };
        let mut i: usize = 0;
        while i < n
            invariant
                i <= n <= s@.len(),
                start + n <= before.len(),
                before.len() <= usize::MAX,
                self.used == start,
                self.buf@.len() == before.len(),
                forall|k: int|
                    0 <= k < before.len() ==> #[trigger] self.buf@[k] == (if start <= k < start
                        + i {
                        s@[k - start]
                    } else {
                        before[k]
                    }),
            decreases n - i,
        {
            self.buf[start + i] = s[i];
            i += 1;
        }
        self.used = start + n;
        assert(self.buf@ == overlaid(before, start as int, s@));
    }

    /// Writes text; what does not fit is left out.
    pub fn write_str(&mut self, s: &str)
        requires
            old(self).wf(),
        ensures
            final(self).wf(),
            final(self).buffer() == overlaid(
                old(self).buffer(),
                old(self).length(),
                s.spec_bytes(),
            ),
            final(self).length() == old(self).length() + fitting(
                old(self).length(),
                old(self).buffer().len() as int,
                s.spec_bytes().len() as int,
            ),
    {
        self.write_bytes(s.as_bytes());
    }
}

/// `n` in decimal.
pub open spec fn decimal_text(n: nat) -> Seq<u8>
    decreases n,
{
    if n < 10 {
        seq![(48 + n) as u8]
    } else {
        decimal_text(n / 10).push((48 + n % 10) as u8)
    }
}

/// `n` in decimal.
pub fn decimal(n: u64) -> (s: Vec<u8>)
    ensures
        s@ == decimal_text(n as nat),
    decreases n,
{
    if n < 10 {
        let mut s: Vec<u8> = Vec::new();
        s.push(48 + n as u8);
        assert(s@ == decimal_text(n as nat));
        s
    } else {
        let mut s = decimal(n / 10);
        s.push(48 + (n % 10) as u8);
        s
    }
}

/// A number reads back as what was written.
pub proof fn law_decimal_reads_back(n: u64)
    ensures
        text::all_digits(decimal_text(n as nat)),
        text::decimal(decimal_text(n as nat)) == n,
    decreases n,
{
    let s = decimal_text(n as nat);
    if n < 10 {
        reveal_with_fuel(text::decimal, 2);
        assert(s.drop_last().len() == 0);
    } else {
        law_decimal_reads_back(n / 10);
        assert(s.drop_last() == decimal_text((n / 10) as nat));
        assert forall|i: int| 0 <= i < s.len() implies text::is_digit(#[trigger] s[i]) by {
            if i < s.len() - 1 {
                assert(s.drop_last()[i] == s[i]);
            }
        }
    }
}

/// The line that `used` written bytes make: with its newline, which takes the
/// place of the last byte of a line that is too long.
pub open spec fn line_of(buf: Seq<u8>, used: int) -> Seq<u8> {
    if used == LINE_MAX {
        buf.take(LINE_MAX - 1).push(10)
    } else {
        buf.take(used).push(10)
    }
}

/// Ends the line in the first `used` bytes of `buf`; says how long it is.
pub fn end_line(buf: &mut [u8; LINE_MAX], used: usize) -> (n: usize)
    requires
        used <= LINE_MAX,
    ensures
        n <= LINE_MAX,
        final(buf)@.take(n as int) == line_of(old(buf)@, used as int),
        n == line_of(old(buf)@, used as int).len(),
{
    let at: usize = if used == LINE_MAX {
        LINE_MAX - 1
    } else {
        used
    };
    buf[at] = 10;
    assert(buf@.take(at + 1) == line_of(old(buf)@, used as int));
    at + 1
}

/// Where a write that took `n` bytes, or failed, leaves off; `None` if there is
/// nothing more to write.
pub fn next_offset(off: usize, used: usize, n: isize) -> (r: Option<usize>)
    requires
        off <= used,
        n <= used - off,
    ensures
        r == (if n <= 0 || off + n == used {
            None
        } else {
            Some((off + n) as usize)
        }),
{
    if n <= 0 {
        return None;
    }
    let next: usize = off + n as usize;
    if next == used {
        None
    } else {
        Some(next)
    }
}

/// What is written behind what was written before leaves that as it is, and is
/// all there while there is room.
pub proof fn law_text_appends(buf: Seq<u8>, used: int, s: Seq<u8>)
    requires
        0 <= used <= buf.len(),
    ensures
        ({
            let n = fitting(used, buf.len() as int, s.len() as int);
            &&& overlaid(buf, used, s).len() == buf.len()
            &&& overlaid(buf, used, s).take(used + n) == buf.take(used) + s.take(n)
            &&& used + s.len() <= buf.len() ==> s.take(n) == s
        }),
{
    let n = fitting(used, buf.len() as int, s.len() as int);
    assert(overlaid(buf, used, s).take(used + n) == buf.take(used) + s.take(n));
    if used + s.len() <= buf.len() {
        assert(s.take(n) == s);
    }
}

/// Byte for byte, what a write leaves in the buffer: the bytes written, as many as
/// there is room for, behind those that were written before, and all else as it was.
pub proof fn law_write_is_in_place(buf: Seq<u8>, used: int, s: Seq<u8>, i: int)
    requires
        0 <= used <= buf.len(),
        0 <= i < buf.len(),
    ensures
        overlaid(buf, used, s)[i] == (if used <= i < used + s.len() {
            s[i - used]
        } else {
            buf[i]
        }),
        used + fitting(used, buf.len() as int, s.len() as int) == (if used + s.len() <= buf.len() {
            used + s.len()
        } else {
            buf.len() as int
        }),
{
}

/// A line is what was written, with a newline behind it; at 256 bytes it is full,
/// and the newline takes the place of the last of them.
pub proof fn law_line_ends(buf: Seq<u8>, used: int)
    requires
        buf.len() == 256,
        0 <= used <= 256,
    ensures
        ({
            let line = line_of(buf, used);
            &&& line.last() == 10
            &&& line.len() == (if used < 256 {
                used + 1
            } else {
                256
            })
            &&& forall|i: int| 0 <= i < line.len() - 1 ==> #[trigger] line[i] == buf[i]
        }),
{
}

/// A number is written without zeros in front.
pub proof fn law_decimal_has_no_zeros_in_front(n: nat)
    ensures
        decimal_text(n).len() > 0,
        decimal_text(n)[0] == 48 ==> n == 0 && decimal_text(n).len() == 1,
    decreases n,
{
    if n >= 10 {
        law_decimal_has_no_zeros_in_front(n / 10);
    }
}

} // verus!
