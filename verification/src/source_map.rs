//! From byte offsets in a source to line numbers.

use std::path::PathBuf;
use vstd::prelude::*;

verus! {

/// The number of line feeds among the first `n` bytes.
pub open spec fn line_feeds(bytes: Seq<u8>, n: int) -> nat
    decreases n,
{
    if n <= 0 {
        0
    } else {
        let earlier = line_feeds(bytes, n - 1);
        if n <= bytes.len() && bytes[n - 1] == 10 {
            earlier + 1
        } else {
            earlier
        }
    }
}

/// The number, from one, of the line that holds a byte offset. An offset
/// behind the end lies in the last line.
pub open spec fn line_number(bytes: Seq<u8>, offset: int) -> nat {
    1 + line_feeds(bytes, offset)
}

/// A later offset never lies in an earlier line.
pub proof fn lemma_line_number_monotone(bytes: Seq<u8>, a: int, b: int)
    requires
        a <= b,
    ensures
        line_number(bytes, a) <= line_number(bytes, b),
    decreases b - a,
{
    if a < b {
        lemma_line_number_monotone(bytes, a, b - 1);
    }
}

/// A line begins right behind a line feed: the next offset has the next number.
/// Behind any other byte the number stays.
pub proof fn lemma_line_number_step(bytes: Seq<u8>, offset: int)
    requires
        0 <= offset < bytes.len(),
    ensures
        line_number(bytes, 0) == 1,
        line_number(bytes, offset + 1) == line_number(bytes, offset) + if bytes[offset] == 10 {
            1int
        } else {
            0int
        },
{
}

/// Where the lines of a text begin.
spec fn starts_lines(starts: Seq<usize>, bytes: Seq<u8>, n: int) -> bool {
    &&& starts.len() == 1 + line_feeds(bytes, n)
    &&& forall|k: int|
        0 <= k < starts.len() ==> 0 <= #[trigger] starts[k] <= n && line_feeds(
            bytes,
            starts[k] as int,
        ) == k
    &&& starts[0] == 0
    &&& forall|k: int|
        1 <= k < starts.len() ==> #[trigger] starts[k] >= 1 && bytes[starts[k] - 1] == 10
}

/// An offset behind the end lies in the line of the end.
pub proof fn lemma_line_number_beyond(bytes: Seq<u8>, offset: int)
    requires
        offset >= bytes.len(),
    ensures
        line_number(bytes, offset) == line_number(bytes, bytes.len() as int),
{
    lemma_feeds_beyond(bytes, offset);
}

proof fn lemma_feeds_beyond(bytes: Seq<u8>, n: int)
    requires
        n >= bytes.len(),
    ensures
        line_feeds(bytes, n) == line_feeds(bytes, bytes.len() as int),
    decreases n,
{
    if n > bytes.len() {
        lemma_feeds_beyond(bytes, n - 1);
    }
}

/// Every offset lies in one of the lines.
pub proof fn lemma_line_number_bounds(bytes: Seq<u8>, offset: int)
    requires
        offset >= 0,
    ensures
        1 <= line_number(bytes, offset) <= line_number(bytes, bytes.len() as int),
{
    if offset >= bytes.len() {
        lemma_feeds_beyond(bytes, offset);
    } else {
        lemma_line_number_monotone(bytes, offset, bytes.len() as int);
    }
}

/// A source text with its path and the offsets at which its lines begin.
pub struct SourceMap {
    path: PathBuf,
    source_code: String,
    line_offsets: Vec<usize>,
}

impl SourceMap {
    /// The path that the map was made with.
    pub closed spec fn source_path(&self) -> PathBuf {
        self.path
    }

    /// The text that the map was made with.
    pub closed spec fn text(&self) -> Seq<char> {
        self.source_code@
    }

    /// The bytes of the text.
    pub open spec fn bytes(&self) -> Seq<u8> {
        vstd::utf8::encode_utf8(self.text())
    }

    /// The offsets are those at which the lines begin.
    #[verifier::type_invariant]
    spec fn wf(&self) -> bool {
        starts_lines(
            self.line_offsets@,
            vstd::utf8::encode_utf8(self.source_code@),
            vstd::utf8::encode_utf8(self.source_code@).len() as int,
        )
    }

    /// Builds the map of a source.
    pub fn from_source(path: &PathBuf, source: &str) -> (r: Self)
        ensures
            r.source_path() == *path,
            r.text() == source@,
    {
        let bytes = source.as_bytes();
        let mut line_offsets: Vec<usize> = Vec::new();
        line_offsets.push(0);
        let mut i: usize = 0;
        while i < bytes.len()
            invariant
                i <= bytes.len(),
                starts_lines(line_offsets@, bytes@, i as int),
            decreases bytes.len() - i,
        {
            if bytes[i] == 10 {
                line_offsets.push(i + 1);
            }
            i += 1;
        }
        SourceMap { path: path.clone(), source_code: source.to_owned(), line_offsets }
    }

    /// The number, from one, of the line that holds a byte offset.
    pub fn byte_to_line(&self, byte_offset: u32) -> (line: u32)
        ensures
            line == line_number(self.bytes(), byte_offset as int) as u32,
    {
        proof {
            use_type_invariant(self);
        }
        let ghost bytes = self.bytes();
        let offset: usize = byte_offset as usize;
        let mut low: usize = 0;
        let mut high: usize = self.line_offsets.len();
        // The line starts below `low` lie at or before the offset, those from
        // `high` on lie behind it.
        while low < high
            invariant
                low <= high <= self.line_offsets@.len(),
                starts_lines(self.line_offsets@, bytes, bytes.len() as int),
                bytes == self.bytes(),
                offset == byte_offset,
                low > 0 ==> self.line_offsets@[low - 1] <= offset,
                high < self.line_offsets@.len() ==> self.line_offsets@[high as int] > offset,
            decreases high - low,
        {
            let mid: usize = low + (high - low) / 2;
            if self.line_offsets[mid] <= offset {
                low = mid + 1;
            } else {
                high = mid;
            }
        }
        proof {
            let starts = self.line_offsets@;
            assert(low > 0) by {
                assert(starts[0] == 0);
            }
            lemma_line_number_monotone(bytes, starts[low - 1] as int, offset as int);
            if low < starts.len() {
                lemma_line_number_monotone(bytes, offset as int, starts[low as int] - 1);
                assert(line_feeds(bytes, starts[low as int] as int) == low);
            } else {
                if offset >= bytes.len() {
                    lemma_feeds_beyond(bytes, offset as int);
                } else {
                    lemma_line_number_monotone(bytes, offset as int, bytes.len() as int);
                }
            }
            assert(line_number(bytes, offset as int) == low);
        }
        low as u32
    }

    /// The path of the source.
    pub fn path(&self) -> (r: &PathBuf)
        ensures
            *r == self.source_path(),
    {
        &self.path
    }

    /// The source text.
    pub fn source_code(&self) -> (r: &str)
        ensures
            r@ == self.text(),
    {
        self.source_code.as_str()
    }
}

} // verus!
