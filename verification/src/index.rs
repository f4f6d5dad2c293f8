//! The segmented offset cache: building it from a text in one pass, and
//! resolving a character position to a byte offset through it.

use crate::encoding::{
    byte_offset, decode_char_at, lemma_byte_offset_is_prefix_len, lemma_byte_offset_monotone,
    lemma_char_encoding_at, lemma_encode_scalar_len, spec_get_char,
};
use vstd::prelude::*;
use vstd::utf8::{encode_scalar, encode_utf8};

verus! {

/// A run of consecutive characters whose byte offsets, taken relative to
/// the segment's starting byte, all fit in a single byte.
pub(crate) struct Segment {
    /// Character index of the segment's first character.
    pub(crate) start_char: usize,
    /// Absolute byte offset at which the segment's first character begins.
    pub(crate) start_byte: usize,
    /// One entry per character: its byte offset relative to `start_byte`.
    pub(crate) offsets: Vec<u8>,
}

impl Segment {
    /// The segment correctly describes the characters
    /// `chars[start_char .. start_char + offsets.len())`.
    pub(crate) open spec fn wf(&self, chars: Seq<char>) -> bool {
        &&& self.offsets@.len() > 0
        &&& self.start_char + self.offsets@.len() <= chars.len()
        &&& self.start_byte == byte_offset(chars, self.start_char as int)
        &&& forall|k: int|
            0 <= k < self.offsets@.len() ==> self.start_byte + self.offsets@[k] == byte_offset(
                chars,
                self.start_char + k,
            )
    }

    /// Character index one past the segment's last character.
    pub(crate) open spec fn end_char(&self) -> int {
        self.start_char + self.offsets@.len()
    }
}

/// The segments are well formed and partition `chars[0..m)` in order,
/// each one beginning where the previous one ended.
pub(crate) open spec fn segs_cover(segs: Seq<Segment>, chars: Seq<char>, m: int) -> bool {
    &&& forall|j: int| 0 <= j < segs.len() ==> (#[trigger] segs[j]).wf(chars)
    &&& (segs.len() == 0 ==> m == 0)
    &&& (segs.len() > 0 ==> segs[0].start_char == 0 && segs[segs.len() - 1].end_char() == m)
    &&& forall|j: int|
        0 < j < segs.len() ==> (#[trigger] segs[j]).start_char == segs[j - 1].end_char()
}

/// The character-offset cache of one text: an ordered list of segments
/// plus the total character count.
pub(crate) struct IndexedCharsInner {
    /// Ordered segments covering every character of the indexed text.
    pub(crate) segments: Vec<Segment>,
    /// Total number of characters in the indexed text.
    pub(crate) total_chars: usize,
}

impl IndexedCharsInner {
    /// The cache describes exactly the text `chars`.
    pub(crate) open spec fn wf(&self, chars: Seq<char>) -> bool {
        &&& self.total_chars == chars.len()
        &&& segs_cover(self.segments@, chars, chars.len() as int)
    }

    /// Scans the text once and records, for every character, its byte
    /// offset relative to the enclosing segment's start, opening a new
    /// segment whenever the next character would push that relative
    /// offset past one byte.
    pub(crate) fn new(s: &str) -> (r: IndexedCharsInner)
        ensures
            r.wf(s@),
    {
        let ghost chars = s@;
        let bytes = s.as_bytes();
        let n = bytes.len();
        proof {
            lemma_byte_offset_is_prefix_len(chars, chars.len() as int);
            assert(chars.take(chars.len() as int) =~= chars);
        }
        let mut segments: Vec<Segment> = Vec::new();
        let mut cur_offsets: Vec<u8> = Vec::new();
        let mut cur_start_char: usize = 0;
        let mut cur_start_byte: usize = 0;
        let mut rel: usize = 0;
        let mut count: usize = 0;
        let mut pos: usize = 0;
        while pos < n
            invariant
                bytes@ == encode_utf8(chars),
                n == bytes@.len(),
                byte_offset(chars, chars.len() as int) == n,
                count <= chars.len(),
                count <= pos,
                pos == byte_offset(chars, count as int),
                segs_cover(segments@, chars, cur_start_char as int),
                cur_start_char + cur_offsets@.len() == count,
                cur_start_byte == byte_offset(chars, cur_start_char as int),
                forall|k: int|
                    0 <= k < cur_offsets@.len() ==> cur_start_byte + cur_offsets@[k] == byte_offset(
                        chars,
                        cur_start_char + k,
                    ),
                cur_start_byte + rel == pos,
                rel <= 255,
                cur_offsets@.len() == 0 ==> rel == 0,
            decreases n - pos,
        {
            proof {
                if count == chars.len() {
                    assert(pos == n);
                }
                lemma_char_encoding_at(chars, count as int);
                lemma_encode_scalar_len(chars[count as int]);
            }
            let b0 = bytes[pos];
            let w: usize = if b0 < 0x80 {
                1
            } else if b0 < 0xe0 {
                2
            } else if b0 < 0xf0 {
                3
            } else {
                4
            };
            proof {
                assert(bytes@.subrange(pos as int, bytes@.len() as int)[0] == bytes@[pos as int]);
                assert(w == encode_scalar(chars[count as int] as u32).len());
            }
            if rel + w > 255 {
                let closed = Segment {
                    start_char: cur_start_char,
                    start_byte: cur_start_byte,
                    offsets: cur_offsets,
                };
                segments.push(closed);
                cur_offsets = Vec::new();
                cur_start_char = count;
                cur_start_byte = pos;
                rel = 0;
            }
            cur_offsets.push(rel as u8);
            rel = rel + w;
            count = count + 1;
            pos = pos + w;
        }
        proof {
            lemma_byte_offset_monotone(chars, count as int, chars.len() as int);
            assert(count == chars.len());
        }
        if cur_offsets.len() > 0 {
            let closed = Segment {
                start_char: cur_start_char,
                start_byte: cur_start_byte,
                offsets: cur_offsets,
            };
            segments.push(closed);
        }
        IndexedCharsInner { segments, total_chars: count }
    }

    /// Binary search for the segment containing character `index`: the
    /// one with the largest starting character index not above `index`.
    fn find_segment(&self, index: usize, Ghost(chars): Ghost<Seq<char>>) -> (j: usize)
        requires
            self.wf(chars),
            index < chars.len(),
        ensures
            j < self.segments@.len(),
            self.segments@[j as int].start_char <= index < self.segments@[j as int].end_char(),
    {
        let ghost segs = self.segments@;
        let mut lo: usize = 0;
        let mut hi: usize = self.segments.len();
        proof {
            assert(segs.len() > 0);
        }
        while hi - lo > 1
            invariant
                self.wf(chars),
                segs == self.segments@,
                index < chars.len(),
                lo < hi <= segs.len(),
                segs[lo as int].start_char <= index,
                hi < segs.len() ==> index < segs[hi as int].start_char,
            decreases hi - lo,
        {
            let mid = lo + (hi - lo) / 2;
            if self.segments[mid].start_char <= index {
                lo = mid;
            } else {
                hi = mid;
            }
        }
        proof {
            if lo + 1 < segs.len() {
                assert(index < segs[lo + 1].start_char);
            } else {
                assert(segs[lo as int].end_char() == chars.len());
            }
        }
        lo
    }

    /// Total characters in the indexed text.
    pub(crate) fn char_count(&self) -> (r: usize)
        ensures
            r == self.total_chars,
    {
        self.total_chars
    }

    /// Resolves character `index` of `s` to a byte offset through the
    /// segment list and decodes the character found there.
    pub(crate) fn get_char(&self, s: &str, index: usize) -> (r: Option<char>)
        requires
            self.wf(s@),
        ensures
            r == spec_get_char(s@, index as int),
    {
        let ghost chars = s@;
        if index >= self.total_chars {
            return None;
        }
        let j = self.find_segment(index, Ghost(chars));
        let seg = &self.segments[j];
        let k = index - seg.start_char;
        let rel = seg.offsets[k];
        let bytes = s.as_bytes();
        let n = bytes.len();
        proof {
            assert(seg.start_byte + rel == byte_offset(chars, index as int));
            lemma_byte_offset_monotone(chars, index as int, chars.len() as int);
            lemma_byte_offset_is_prefix_len(chars, chars.len() as int);
            assert(chars.take(chars.len() as int) =~= chars);
            assert(byte_offset(chars, index as int) < n);
        }
        let off = seg.start_byte + rel as usize;
        Some(decode_char_at(bytes, off, Ghost(chars), Ghost(index as int)))
    }
}

} // verus!
