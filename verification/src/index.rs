//! The decisions of indexing: which chunk keys are stored, which files are
//! skipped, how a chunk that the backend finds too large is halved, and the
//! queue of chunks that one base chunk turns into.
use std::collections::HashSet;
use vstd::prelude::*;

use crate::db::{FileState, KnownFile};
use crate::strings::{
    chars_eq, contains_chars, contains_seq, from_chars, insert_sorted, join, join_range, lines,
    split_lines, strictly_sorted, string_views, to_chars, views,
};
use crate::text::{chunk_views, ChunkView, LineChunk};

verus! {

/// A text file found under the scanned directory, read and hashed.
#[derive(Debug, Clone)]
pub struct PendingFile {
    pub path: String,
    pub hash: String,
    pub size: i64,
    pub text: String,
}

/// A piece of a file that is still to be embedded: a base chunk, or a part of
/// one reached by halving it (`split_path` records the halvings).
#[derive(Debug, Clone)]
pub struct PendingChunk {
    pub path: String,
    pub file_hash: String,
    pub base_chunk_index: i64,
    pub split_path: u32,
    pub start_line: i64,
    pub end_line: i64,
    pub text: String,
}

/// The mathematical value of a [`PendingChunk`].
pub struct PendingChunkView {
    pub path: Seq<char>,
    pub file_hash: Seq<char>,
    pub base_chunk_index: i64,
    pub split_path: u32,
    pub start_line: i64,
    pub end_line: i64,
    pub text: Seq<char>,
}

impl View for PendingChunk {
    type V = PendingChunkView;

    open spec fn view(&self) -> PendingChunkView {
        PendingChunkView {
            path: self.path@,
            file_hash: self.file_hash@,
            base_chunk_index: self.base_chunk_index,
            split_path: self.split_path,
            start_line: self.start_line,
            end_line: self.end_line,
            text: self.text@,
        }
    }
}

// ---------------------------------------------------------------------------
// Chunk keys
// ---------------------------------------------------------------------------

/// The stored key of a chunk: the low 32 bits of the base chunk index in the
/// high half, the split path in the low half.
pub open spec fn key_of(base_chunk_index: i64, split_path: u32) -> i64 {
    ((((base_chunk_index as u64) << 32u64) | (split_path as u64)) as i64)
}

/// The stored key of a chunk: the low 32 bits of the base chunk index in the
/// high half, the split path in the low half.
pub fn chunk_index_key(base_chunk_index: i64, split_path: u32) -> (r: i64)
    ensures
        r == key_of(base_chunk_index, split_path),
        (r as u64) >> 32u64 == (base_chunk_index as u64) & 0xffff_ffffu64,
        (r as u64) & 0xffff_ffffu64 == split_path as u64,
        0 <= base_chunk_index < 0x8000_0000 ==> r == base_chunk_index * 0x1_0000_0000 + split_path,
{
    let b = base_chunk_index as u64;
    let s = split_path as u64;
    let k: u64 = (b << 32u64) | s;
    proof {
        assert(s & 0xffff_ffffu64 == s) by (bit_vector)
            requires
                s <= 0xffff_ffffu64,
        ;
        assert(((b << 32u64) | s) >> 32u64 == b & 0xffff_ffffu64) by (bit_vector)
            requires
                s <= 0xffff_ffffu64,
        ;
        assert(((b << 32u64) | s) & 0xffff_ffffu64 == s) by (bit_vector)
            requires
                s <= 0xffff_ffffu64,
        ;
        assert((k as i64) as u64 == k) by (bit_vector);
        if 0 <= base_chunk_index < 0x8000_0000 {
            assert(b < 0x8000_0000u64);
            assert(((b << 32u64) | s) == b * 0x1_0000_0000u64 + s && b * 0x1_0000_0000u64 + s
                < 0x8000_0000_0000_0000u64) by (bit_vector)
                requires
                    b < 0x8000_0000u64,
                    s <= 0xffff_ffffu64,
            ;
            assert(k < 0x8000_0000_0000_0000u64);
            assert((k as i64) as int == k as int);
        }
    }
    k as i64
}

/// Distinct pieces get distinct keys: two chunk keys are equal only when
/// their base chunk indexes agree in the low 32 bits and their split paths
/// agree, so for base chunk indexes below 2^32 equal keys mean equal pieces.
pub proof fn lemma_chunk_keys_distinct(b1: i64, s1: u32, b2: i64, s2: u32)
    requires
        key_of(b1, s1) == key_of(b2, s2),
    ensures
        (b1 as u64) & 0xffff_ffffu64 == (b2 as u64) & 0xffff_ffffu64,
        s1 == s2,
        0 <= b1 < 0x1_0000_0000 && 0 <= b2 < 0x1_0000_0000 ==> b1 == b2,
{
    let x1 = b1 as u64;
    let x2 = b2 as u64;
    let y1 = s1 as u64;
    let y2 = s2 as u64;
    assert((((x1 << 32u64) | y1) as i64) == (((x2 << 32u64) | y2) as i64));
    assert(x1 & 0xffff_ffffu64 == x2 & 0xffff_ffffu64 && y1 == y2) by (bit_vector)
        requires
            (((x1 << 32u64) | y1) as i64) == (((x2 << 32u64) | y2) as i64),
            y1 <= 0xffff_ffffu64,
            y2 <= 0xffff_ffffu64,
    ;
    if 0 <= b1 < 0x1_0000_0000 && 0 <= b2 < 0x1_0000_0000 {
        assert(x1 < 0x1_0000_0000u64 && x2 < 0x1_0000_0000u64);
        assert(x1 == x2) by (bit_vector)
            requires
                x1 & 0xffff_ffffu64 == x2 & 0xffff_ffffu64,
                x1 < 0x1_0000_0000u64,
                x2 < 0x1_0000_0000u64,
        ;
    }
}

impl PendingChunk {
    /// The key under which this chunk is stored.
    pub fn chunk_index(&self) -> (r: i64)
        ensures
            r == key_of(self.base_chunk_index, self.split_path),
            (r as u64) >> 32u64 == (self.base_chunk_index as u64) & 0xffff_ffffu64,
            (r as u64) & 0xffff_ffffu64 == self.split_path as u64,
            0 <= self.base_chunk_index < 0x8000_0000 ==> r == self.base_chunk_index * 0x1_0000_0000
                + self.split_path,
    {
        chunk_index_key(self.base_chunk_index, self.split_path)
    }
}

// ---------------------------------------------------------------------------
// Files that are never indexed
// ---------------------------------------------------------------------------

/// Whether a file with this name is left out of the index: the index
/// database itself and `.gitignore`.
pub open spec fn skipped_name(file_name: Option<Seq<char>>) -> bool {
    file_name == Some(".vigrep.x"@) || file_name == Some(".gitignore"@)
}

/// Whether the file with the given name (`None` when it has none, or none in
/// UTF-8) is left out of the index.
pub fn should_skip_file(file_name: Option<&str>) -> (r: bool)
    ensures
        r == skipped_name(
            match file_name {
                Some(n) => Some(n@),
                None => None,
            },
        ),
{
    match file_name {
        Some(name) => {
            let n = to_chars(name);
            let db = to_chars(".vigrep.x");
            let gi = to_chars(".gitignore");
            crate::strings::chars_eq(n.as_slice(), db.as_slice()) || crate::strings::chars_eq(
                n.as_slice(),
                gi.as_slice(),
            )
        },
        None => false,
    }
}

// ---------------------------------------------------------------------------
// Text files
// ---------------------------------------------------------------------------

/// Decodes `bytes` as UTF-8.
///
/// Calls `String::from_utf8`, which returns the string when the bytes are
/// valid UTF-8 (the string then holds exactly the characters they encode)
/// and an error otherwise; the error is turned into `None`.
#[verifier::external_body]
fn string_from_utf8(bytes: Vec<u8>) -> (r: Option<String>)
    ensures
        r is Some <==> vstd::utf8::valid_utf8(bytes@),
        r matches Some(s) ==> s@ == vstd::utf8::decode_utf8(bytes@),
{
    match String::from_utf8(bytes) {
        Ok(s) => Some(s),
        Err(_) => None,
    }
}

/// The text of a file read as `bytes`: `None` for a binary file, that is one
/// whose bytes are not valid UTF-8, which indexing skips.
pub fn file_text(bytes: Vec<u8>) -> (r: Option<String>)
    ensures
        r is Some <==> vstd::utf8::valid_utf8(bytes@),
        r matches Some(t) ==> t@ == vstd::utf8::decode_utf8(bytes@),
{
    string_from_utf8(bytes)
}

// ---------------------------------------------------------------------------
// Backend errors that ask for a smaller input
// ---------------------------------------------------------------------------

/// The lowercase form of a text, as `str::to_lowercase` computes it.
pub uninterp spec fn lowercase_of(s: Seq<char>) -> Seq<char>;

/// Lowercases `s`.
///
/// Calls `str::to_lowercase`, which maps each character to its Unicode
/// lowercase form; the contract claims only that the result is that function
/// of `s` (named, not spelled out).
#[verifier::external_body]
fn to_lowercase(s: &str) -> (r: String)
    ensures
        r@ == lowercase_of(s@),
{
    s.to_lowercase()
}

/// Whether an already lowercased error message names one of the ways a
/// backend says that an input is too large.
pub open spec fn names_too_large(lowered: Seq<char>) -> bool {
    ||| contains_seq(lowered, "too large to process"@)
    ||| contains_seq(lowered, "input too large"@)
    ||| contains_seq(lowered, "context length"@)
    ||| contains_seq(lowered, "maximum context"@)
}

/// Whether an error message says that the input was too large for the
/// backend: its lowercase form names one of the ways of saying so.
pub open spec fn too_large_message(message: Seq<char>) -> bool {
    names_too_large(lowercase_of(message))
}

/// Whether the lowercased error message `lowered` says that the input was too
/// large for the backend.
pub fn mentions_too_large(lowered: &str) -> (r: bool)
    ensures
        r == names_too_large(lowered@),
{
    let m = to_chars(lowered);
    let p1 = to_chars("too large to process");
    let p2 = to_chars("input too large");
    let p3 = to_chars("context length");
    let p4 = to_chars("maximum context");
    contains_chars(m.as_slice(), p1.as_slice()) || contains_chars(m.as_slice(), p2.as_slice())
        || contains_chars(m.as_slice(), p3.as_slice()) || contains_chars(
        m.as_slice(),
        p4.as_slice(),
    )
}

/// Whether the backend error with this message asks for a smaller input.
pub fn is_too_large_error(message: &str) -> (r: bool)
    ensures
        r == too_large_message(message@),
{
    let lower = to_lowercase(message);
    mentions_too_large(lower.as_str())
}

// ---------------------------------------------------------------------------
// Halving a chunk
// ---------------------------------------------------------------------------

/// The split path of the first half: the path shifted left by one bit
/// (within 32 bits).
pub open spec fn left_path(split_path: u32) -> u32 {
    ((2 * split_path as int) % 0x1_0000_0000) as u32
}

/// The split path of the second half: the first half's with the low bit set.
pub open spec fn right_path(split_path: u32) -> u32 {
    (left_path(split_path) + 1) as u32
}

fn child_paths(split_path: u32) -> (r: (u32, u32))
    ensures
        r.0 == left_path(split_path),
        r.1 == right_path(split_path),
{
    let l: u32 = split_path << 1u32;
    let r: u32 = (split_path << 1u32) | 1u32;
    proof {
        assert(l == ((2 * split_path as int) % 0x1_0000_0000) as u32) by (bit_vector)
            requires
                l == split_path << 1u32,
        ;
        assert(r == l + 1 && l < 0xffff_ffffu32) by (bit_vector)
            requires
                l == split_path << 1u32,
                r == (split_path << 1u32) | 1u32,
        ;
    }
    (l, r)
}

/// The halves of a chunk of a single line: its characters cut in the middle
/// (the first half has the smaller share); `None` for one character or none.
pub open spec fn single_line_halves(c: PendingChunkView) -> Option<(PendingChunkView, PendingChunkView)> {
    let n = c.text.len() as int;
    if n <= 1 {
        None
    } else {
        let mid = n / 2;
        Some(
            (
                PendingChunkView {
                    split_path: left_path(c.split_path),
                    text: c.text.take(mid),
                    ..c
                },
                PendingChunkView {
                    split_path: right_path(c.split_path),
                    text: c.text.skip(mid),
                    ..c
                },
            ),
        )
    }
}

/// The halves of a chunk: a chunk of several lines is cut between lines (the
/// first half holds the smaller share) and its lines are re-joined with `\n`;
/// a chunk of one line is cut by characters; `None` for a chunk that holds no
/// line or a single character.
pub open spec fn chunk_halves(c: PendingChunkView) -> Option<(PendingChunkView, PendingChunkView)> {
    let ls = lines(c.text);
    let n = ls.len() as int;
    if n == 0 {
        None
    } else if n == 1 {
        single_line_halves(c)
    } else {
        let mid = n / 2;
        let left_end = (c.start_line + mid - 1) as i64;
        Some(
            (
                PendingChunkView {
                    split_path: left_path(c.split_path),
                    end_line: left_end,
                    text: join(ls.take(mid), seq!['\n']),
                    ..c
                },
                PendingChunkView {
                    split_path: right_path(c.split_path),
                    start_line: (left_end + 1) as i64,
                    text: join(ls.skip(mid), seq!['\n']),
                    ..c
                },
            ),
        )
    }
}

/// A join of `s` equals the joins of its two parts around one separator.
pub proof fn lemma_join_split(s: Seq<Seq<char>>, sep: Seq<char>, m: int)
    requires
        0 < m < s.len(),
    ensures
        join(s, sep) == join(s.take(m), sep) + sep + join(s.skip(m), sep),
    decreases s.len(),
{
    if m == s.len() - 1 {
        assert(s.take(m) == s.drop_last());
        assert(s.skip(m) == seq![s.last()]);
    } else {
        let dl = s.drop_last();
        lemma_join_split(dl, sep, m);
        assert(dl.take(m) == s.take(m));
        assert(s.skip(m).drop_last() == dl.skip(m));
        assert(s.skip(m).last() == s.last());
        assert(join(s.skip(m), sep) == join(dl.skip(m), sep) + sep + s.last());
    }
}

fn copy_chunk_fields(
    c: &PendingChunk,
    split_path: u32,
    start_line: i64,
    end_line: i64,
    text: String,
) -> (r: PendingChunk)
    ensures
        r@ == (PendingChunkView { split_path, start_line, end_line, text: text@, ..c@ }),
{
    PendingChunk {
        path: c.path.clone(),
        file_hash: c.file_hash.clone(),
        base_chunk_index: c.base_chunk_index,
        split_path,
        start_line,
        end_line,
        text,
    }
}

/// Halves a chunk of a single line by characters.
pub fn split_single_line_chunk(chunk: &PendingChunk) -> (r: Option<(PendingChunk, PendingChunk)>)
    ensures
        match r {
            Some((a, b)) => single_line_halves(chunk@) == Some((a@, b@)),
            None => single_line_halves(chunk@) is None,
        },
{
    let characters = to_chars(chunk.text.as_str());
    if characters.len() <= 1 {
        return None;
    }
    let midpoint = characters.len() / 2;
    let left = crate::strings::copy_range(characters.as_slice(), 0, midpoint);
    let right = crate::strings::copy_range(characters.as_slice(), midpoint, characters.len());
    assert(characters@.subrange(0, midpoint as int) == characters@.take(midpoint as int));
    assert(characters@.subrange(midpoint as int, characters.len() as int) == characters@.skip(
        midpoint as int,
    ));
    let (lp, rp) = child_paths(chunk.split_path);
    let a = copy_chunk_fields(
        chunk,
        lp,
        chunk.start_line,
        chunk.end_line,
        from_chars(left.as_slice()),
    );
    let b = copy_chunk_fields(
        chunk,
        rp,
        chunk.start_line,
        chunk.end_line,
        from_chars(right.as_slice()),
    );
    Some((a, b))
}

/// Halves a chunk: between lines when it has several, else by characters.
pub fn split_pending_chunk(chunk: &PendingChunk) -> (r: Option<(PendingChunk, PendingChunk)>)
    requires
        chunk.start_line + lines(chunk.text@).len() / 2 <= i64::MAX,
    ensures
        match r {
            Some((a, b)) => chunk_halves(chunk@) == Some((a@, b@)),
            None => chunk_halves(chunk@) is None,
        },
{
    let chars = to_chars(chunk.text.as_str());
    let line_vecs = split_lines(chars.as_slice());
    let n = line_vecs.len();
    if n == 0 {
        return None;
    }
    if n == 1 {
        return split_single_line_chunk(chunk);
    }
    let ghost ls = views(line_vecs@);
    let midpoint = n / 2;
    let newline: Vec<char> = vec!['\n'];
    assert(newline@ == seq!['\n']);
    let left_text = join_range(line_vecs.as_slice(), 0, midpoint, newline.as_slice());
    let right_text = join_range(line_vecs.as_slice(), midpoint, n, newline.as_slice());
    assert(ls.subrange(0, midpoint as int) == ls.take(midpoint as int));
    assert(ls.subrange(midpoint as int, n as int) == ls.skip(midpoint as int));
    let left_end: i64 = (chunk.start_line as i128 + midpoint as i128 - 1) as i64;
    let right_start = left_end + 1;
    let (lp, rp) = child_paths(chunk.split_path);
    let a = copy_chunk_fields(
        chunk,
        lp,
        chunk.start_line,
        left_end,
        from_chars(left_text.as_slice()),
    );
    let b = copy_chunk_fields(
        chunk,
        rp,
        right_start,
        chunk.end_line,
        from_chars(right_text.as_slice()),
    );
    Some((a, b))
}

/// Halving a chunk of several lines keeps its text: the halves joined by `\n`
/// give the chunk's lines joined by `\n`; the halves' line ranges meet; and
/// the halves' split paths are the chunk's path extended by one bit.
pub proof fn lemma_halves_keep_lines(c: PendingChunkView)
    requires
        lines(c.text).len() >= 2,
        c.start_line + lines(c.text).len() / 2 <= i64::MAX,
    ensures
        chunk_halves(c) matches Some((a, b)) && {
            &&& a.text + seq!['\n'] + b.text == join(lines(c.text), seq!['\n'])
            &&& a.start_line == c.start_line
            &&& a.end_line + 1 == b.start_line
            &&& b.end_line == c.end_line
            &&& a.split_path == left_path(c.split_path)
            &&& b.split_path == right_path(c.split_path)
            &&& a.path == c.path && b.path == c.path
            &&& a.base_chunk_index == c.base_chunk_index && b.base_chunk_index
                == c.base_chunk_index
        },
{
    let ls = lines(c.text);
    lemma_join_split(ls, seq!['\n'], (ls.len() / 2) as int);
}

/// Halving a chunk of one line keeps its text: the halves concatenated give
/// the chunk's text, and neither half is empty.
pub proof fn lemma_halves_keep_characters(c: PendingChunkView)
    requires
        lines(c.text).len() == 1,
        c.text.len() >= 2,
    ensures
        chunk_halves(c) matches Some((a, b)) && {
            &&& a.text + b.text == c.text
            &&& a.text.len() > 0 && b.text.len() > 0
            &&& a.start_line == c.start_line && a.end_line == c.end_line
            &&& b.start_line == c.start_line && b.end_line == c.end_line
        },
{
    assert(c.text.take((c.text.len() / 2) as int) + c.text.skip((c.text.len() / 2) as int) == c.text);
}

// ---------------------------------------------------------------------------
// The queue of pieces of one base chunk
// ---------------------------------------------------------------------------

/// The pieces of one base chunk that are still to be embedded (the last one
/// is next) and how many pieces were stored so far.
pub struct RetryQueue {
    stack: Vec<PendingChunk>,
    inserted: usize,
}

/// The mathematical value of a [`RetryQueue`].
pub struct RetryQueueView {
    pub pending: Seq<PendingChunkView>,
    pub inserted: nat,
}

impl View for RetryQueue {
    type V = RetryQueueView;

    closed spec fn view(&self) -> RetryQueueView {
        RetryQueueView {
            pending: self.stack@.map_values(|c: PendingChunk| c@),
            inserted: self.inserted as nat,
        }
    }
}

impl RetryQueue {
    /// A queue that holds one base chunk and has stored nothing.
    pub fn new(chunk: PendingChunk) -> (r: RetryQueue)
        ensures
            r@.pending == seq![chunk@],
            r@.inserted == 0,
    {
        let mut stack = Vec::new();
        stack.push(chunk);
        let r = RetryQueue { stack, inserted: 0 };
        assert(r@.pending =~= seq![chunk@]);
        r
    }

    /// How many pieces were stored.
    pub fn inserted(&self) -> (r: usize)
        ensures
            r == self@.inserted,
    {
        self.inserted
    }

    /// Takes the next piece to embed, `None` when all are done.
    pub fn next_chunk(&mut self) -> (r: Option<PendingChunk>)
        ensures
            old(self)@.pending.len() == 0 ==> (r is None && final(self)@ == old(self)@),
            old(self)@.pending.len() > 0 ==> (r matches Some(c) && c@ == old(self)@.pending.last()
                && final(self)@.pending == old(self)@.pending.drop_last() && final(self)@.inserted
                == old(self)@.inserted),
    {
        let ghost before = self.stack@;
        let r = self.stack.pop();
        proof {
            if before.len() > 0 {
                assert(self.stack@.map_values(|c: PendingChunk| c@) =~= before.map_values(
                    |c: PendingChunk| c@,
                ).drop_last());
            }
        }
        r
    }

    /// Records that a piece was embedded and stored.
    pub fn record_embedded(&mut self)
        requires
            old(self)@.inserted < usize::MAX,
        ensures
            final(self)@.pending == old(self)@.pending,
            final(self)@.inserted == old(self)@.inserted + 1,
    {
        self.inserted = self.inserted + 1;
    }

    /// Records that the backend found `chunk` too large: its halves are queued,
    /// the first half to be embedded next, and `true` is returned; when it
    /// cannot be halved the queue is unchanged and `false` is returned.
    pub fn record_too_large(&mut self, chunk: &PendingChunk) -> (r: bool)
        requires
            chunk.start_line + lines(chunk.text@).len() / 2 <= i64::MAX,
        ensures
            r == chunk_halves(chunk@) is Some,
            r ==> (chunk_halves(chunk@) matches Some((a, b)) && final(self)@.pending == old(
                self,
            )@.pending.push(b).push(a)),
            !r ==> final(self)@.pending == old(self)@.pending,
            final(self)@.inserted == old(self)@.inserted,
    {
        match split_pending_chunk(chunk) {
            Some((left, right)) => {
                let ghost before = self.stack@;
                let ghost lv = left@;
                let ghost rv = right@;
                self.stack.push(right);
                self.stack.push(left);
                assert(self.stack@.map_values(|c: PendingChunk| c@) =~= before.map_values(
                    |c: PendingChunk| c@,
                ).push(rv).push(lv));
                true
            },
            None => false,
        }
    }

    /// Records that embedding `chunk` failed, `too_large` telling whether the
    /// backend found it too large. A too large chunk that can be halved has
    /// its halves queued, the first half to be embedded next; otherwise the
    /// queue is unchanged and the outcome says why the failure stands.
    pub fn record_failure(&mut self, chunk: &PendingChunk, too_large: bool) -> (r: RetryOutcome)
        requires
            too_large ==> chunk.start_line + lines(chunk.text@).len() / 2 <= i64::MAX,
        ensures
            !too_large ==> r is Failed,
            too_large ==> (r is Halved <==> chunk_halves(chunk@) is Some),
            too_large ==> (r is TooLargeToSplit <==> chunk_halves(chunk@) is None),
            r is Halved ==> (chunk_halves(chunk@) matches Some((a, b)) && final(self)@.pending
                == old(self)@.pending.push(b).push(a)),
            !(r is Halved) ==> final(self)@.pending == old(self)@.pending,
            final(self)@.inserted == old(self)@.inserted,
    {
        if !too_large {
            RetryOutcome::Failed
        } else if self.record_too_large(chunk) {
            RetryOutcome::Halved
        } else {
            RetryOutcome::TooLargeToSplit
        }
    }
}

/// What became of a chunk whose embedding failed.
pub enum RetryOutcome {
    /// It was too large and its halves were queued.
    Halved,
    /// It was too large and cannot be halved: the failure stands.
    TooLargeToSplit,
    /// The failure was of another kind: it stands as it is.
    Failed,
}

/// A run over the pieces of one base chunk, as the queue drives it: the
/// pieces still to embed (the last one is next) and the pieces stored so far,
/// in the order they were stored.
pub struct RetryRun {
    pub pending: Seq<PendingChunkView>,
    pub stored: Seq<PendingChunkView>,
}

/// One step of a run, where `too_large` tells which pieces the backend finds
/// too large: the next piece is taken; one that is not too large is stored;
/// one that is too large is replaced by its halves, the first half next. A
/// piece that is too large and cannot be halved ends the run with an error,
/// and the state stays as it was.
pub open spec fn retry_step(r: RetryRun, too_large: spec_fn(PendingChunkView) -> bool) -> RetryRun {
    if r.pending.len() == 0 {
        r
    } else {
        let c = r.pending.last();
        let rest = r.pending.drop_last();
        if !too_large(c) {
            RetryRun { pending: rest, stored: r.stored.push(c) }
        } else {
            match chunk_halves(c) {
                Some((a, b)) => RetryRun { pending: rest.push(b).push(a), stored: r.stored },
                None => r,
            }
        }
    }
}

/// `n` steps of a run.
pub open spec fn retry_run(r: RetryRun, too_large: spec_fn(PendingChunkView) -> bool, n: nat) -> RetryRun
    decreases n,
{
    if n == 0 {
        r
    } else {
        retry_run(retry_step(r, too_large), too_large, (n - 1) as nat)
    }
}

/// The pieces that `c` ends up stored as, left to right, when every piece
/// found too large is halved, at most `depth` times in a row; `None` when a
/// piece is too large and cannot be halved within that depth.
pub open spec fn stored_pieces(c: PendingChunkView, too_large: spec_fn(PendingChunkView) -> bool, depth: nat) -> Option<
    Seq<PendingChunkView>,
>
    decreases depth,
{
    if !too_large(c) {
        Some(seq![c])
    } else if depth == 0 {
        None
    } else {
        match chunk_halves(c) {
            None => None,
            Some((a, b)) => match (
                stored_pieces(a, too_large, (depth - 1) as nat),
                stored_pieces(b, too_large, (depth - 1) as nat),
            ) {
                (Some(x), Some(y)) => Some(x + y),
                _ => None,
            },
        }
    }
}

/// The number of steps that a run over `c` takes: one per piece taken.
pub open spec fn retry_steps(c: PendingChunkView, too_large: spec_fn(PendingChunkView) -> bool, depth: nat) -> nat
    decreases depth,
{
    if !too_large(c) {
        1
    } else if depth == 0 {
        0
    } else {
        match chunk_halves(c) {
            None => 0,
            Some((a, b)) => 1 + retry_steps(a, too_large, (depth - 1) as nat) + retry_steps(
                b,
                too_large,
                (depth - 1) as nat,
            ),
        }
    }
}

proof fn lemma_retry_run_split(r: RetryRun, too_large: spec_fn(PendingChunkView) -> bool, n: nat, m: nat)
    ensures
        retry_run(r, too_large, n + m) == retry_run(retry_run(r, too_large, n), too_large, m),
    decreases n,
{
    if n > 0 {
        lemma_retry_run_split(retry_step(r, too_large), too_large, (n - 1) as nat, m);
        assert((n + m - 1) as nat == (n - 1) as nat + m);
    }
}

proof fn lemma_retry_run_piece(
    c: PendingChunkView,
    too_large: spec_fn(PendingChunkView) -> bool,
    depth: nat,
    below: Seq<PendingChunkView>,
    stored: Seq<PendingChunkView>,
)
    requires
        stored_pieces(c, too_large, depth) is Some,
    ensures
        retry_run(
            RetryRun { pending: below.push(c), stored },
            too_large,
            retry_steps(c, too_large, depth),
        ) == (RetryRun { pending: below, stored: stored + stored_pieces(c, too_large, depth)->0 }),
    decreases depth,
{
    let start = RetryRun { pending: below.push(c), stored };
    assert(start.pending.drop_last() == below);
    if !too_large(c) {
        assert(retry_run(start, too_large, 1) == retry_run(retry_step(start, too_large), too_large, 0));
        assert(stored.push(c) == stored + seq![c]);
    } else {
        let (a, b) = chunk_halves(c)->0;
        let d = (depth - 1) as nat;
        let na = retry_steps(a, too_large, d);
        let nb = retry_steps(b, too_large, d);
        let xa = stored_pieces(a, too_large, d)->0;
        let xb = stored_pieces(b, too_large, d)->0;
        let s1 = retry_step(start, too_large);
        assert(s1 == RetryRun { pending: below.push(b).push(a), stored });
        assert(retry_run(start, too_large, 1) == s1) by {
            assert(retry_run(start, too_large, 1) == retry_run(s1, too_large, 0));
        }
        lemma_retry_run_split(start, too_large, 1, na + nb);
        lemma_retry_run_split(s1, too_large, na, nb);
        lemma_retry_run_piece(a, too_large, d, below.push(b), stored);
        lemma_retry_run_piece(b, too_large, d, below, stored + xa);
        assert(stored + xa + xb == stored + (xa + xb));
        assert(retry_steps(c, too_large, depth) == 1 + (na + nb));
    }
}

/// A run over one base chunk that ends without error stores its pieces left
/// to right: starting from a queue that holds only the chunk, after
/// [`retry_steps`] steps nothing is pending and the pieces stored are exactly
/// [`stored_pieces`], where each halving puts all the pieces of the first
/// half before those of the second. The count of stored pieces is the length
/// of that sequence.
pub proof fn lemma_retry_run_order(c: PendingChunkView, too_large: spec_fn(PendingChunkView) -> bool, depth: nat)
    requires
        stored_pieces(c, too_large, depth) is Some,
    ensures
        retry_run(
            RetryRun { pending: seq![c], stored: seq![] },
            too_large,
            retry_steps(c, too_large, depth),
        ) == (RetryRun { pending: seq![], stored: stored_pieces(c, too_large, depth)->0 }),
        too_large(c) ==> (chunk_halves(c) matches Some((a, b)) && stored_pieces(c, too_large, depth)->0
            == stored_pieces(a, too_large, (depth - 1) as nat)->0 + stored_pieces(
            b,
            too_large,
            (depth - 1) as nat,
        )->0),
{
    let empty = Seq::<PendingChunkView>::empty();
    assert(empty.push(c) == seq![c]);
    lemma_retry_run_piece(c, too_large, depth, empty, empty);
    assert(empty + stored_pieces(c, too_large, depth)->0 == stored_pieces(c, too_large, depth)->0);
}

// ---------------------------------------------------------------------------
// Planning a reindex
// ---------------------------------------------------------------------------

/// What the index knows of `path`: the state of the last entry for it, as a
/// map filled in the entries' order keeps it.
pub open spec fn known_state(known: Seq<KnownFile>, path: Seq<char>) -> Option<FileState>
    decreases known.len(),
{
    if known.len() == 0 {
        None
    } else if known.last().path@ == path {
        Some(known.last().state)
    } else {
        known_state(known.drop_last(), path)
    }
}

/// The index knows `path` exactly when one of its entries is for it.
pub proof fn lemma_known_state_some(known: Seq<KnownFile>, path: Seq<char>)
    ensures
        known_state(known, path) is Some <==> exists|i: int|
            0 <= i < known.len() && (#[trigger] known[i]).path@ == path,
    decreases known.len(),
{
    if known.len() > 0 {
        lemma_known_state_some(known.drop_last(), path);
        if known_state(known.drop_last(), path) is Some {
            let i = choose|i: int|
                0 <= i < known.drop_last().len() && (#[trigger] known.drop_last()[i]).path@ == path;
            assert(known[i] == known.drop_last()[i]);
        }
        if exists|i: int| 0 <= i < known.len() && (#[trigger] known[i]).path@ == path {
            let i = choose|i: int| 0 <= i < known.len() && (#[trigger] known[i]).path@ == path;
            if i < known.len() - 1 {
                assert(known.drop_last()[i] == known[i]);
            }
        }
    }
}

/// The position of the last entry for `path`.
fn lookup_known(known: &[KnownFile], path: &[char]) -> (r: Option<usize>)
    ensures
        match r {
            Some(i) => i < known.len() && known_state(known@, path@) == Some(known@[i as int].state),
            None => known_state(known@, path@) is None,
        },
{
    let mut i = known.len();
    assert(known@.take(i as int) == known@);
    while i > 0
        invariant
            i <= known.len(),
            known_state(known@, path@) == known_state(known@.take(i as int), path@),
        decreases i,
    {
        let p = to_chars(known[i - 1].path.as_str());
        assert(known@.take(i as int).last() == known@[i - 1]);
        assert(known@.take(i as int).drop_last() == known@.take(i - 1));
        if chars_eq(p.as_slice(), path) {
            return Some(i - 1);
        }
        i = i - 1;
    }
    None
}

/// Whether one of the files found on disk has the path `p`.
pub open spec fn found_on_disk(discovered: Seq<PendingFile>, p: Seq<char>) -> bool {
    exists|j: int| 0 <= j < discovered.len() && (#[trigger] discovered[j]).path@ == p
}

fn discovered_has(discovered: &[PendingFile], p: &[char]) -> (r: bool)
    ensures
        r == found_on_disk(discovered@, p@),
{
    let mut j: usize = 0;
    while j < discovered.len()
        invariant
            j <= discovered.len(),
            forall|k: int| 0 <= k < j ==> (#[trigger] discovered@[k]).path@ != p@,
        decreases discovered.len() - j,
    {
        let q = to_chars(discovered[j].path.as_str());
        if chars_eq(q.as_slice(), p) {
            return true;
        }
        j = j + 1;
    }
    false
}

/// Whether the index holds `f` with the hash it has now.
pub open spec fn hash_current(known: Seq<KnownFile>, f: PendingFile) -> bool {
    known_state(known, f.path@) matches Some(st) && st.hash@ == f.hash@
}

/// Whether the chunks stored for `p` must go: the file is gone from disk, or
/// it is on disk with a content the index does not hold.
pub open spec fn needs_clearing(known: Seq<KnownFile>, discovered: Seq<PendingFile>, p: Seq<char>) -> bool {
    ||| known_state(known, p) is Some && !found_on_disk(discovered, p)
    ||| exists|j: int|
        0 <= j < discovered.len() && (#[trigger] discovered[j]).path@ == p && !hash_current(
            known,
            discovered[j],
        )
}

/// The state that the index knows of `path` is that of one of its entries
/// for `path`.
proof fn lemma_known_state_entry(known: Seq<KnownFile>, path: Seq<char>)
    ensures
        known_state(known, path) matches Some(st) ==> exists|k: int|
            0 <= k < known.len() && (#[trigger] known[k]).path@ == path && known[k].state == st,
    decreases known.len(),
{
    if known.len() > 0 && known.last().path@ != path {
        lemma_known_state_entry(known.drop_last(), path);
        if known_state(known.drop_last(), path) is Some {
            let k = choose|k: int|
                0 <= k < known.drop_last().len() && (#[trigger] known.drop_last()[k]).path@ == path
                    && known.drop_last()[k].state == known_state(known.drop_last(), path)->0;
            assert(known[k] == known.drop_last()[k]);
        }
    }
    if known.len() > 0 && known.last().path@ == path {
        assert(known[known.len() - 1] == known.last());
    }
}

/// Which paths a reindex clears: every path the index knows that is not
/// among the files found on disk, whatever the hashes of the files found;
/// every file found on disk whose content no entry of the index holds for
/// its path; and no path that is neither known nor found.
pub proof fn lemma_clearing_laws(known: Seq<KnownFile>, discovered: Seq<PendingFile>, p: Seq<char>)
    ensures
        (exists|k: int| 0 <= k < known.len() && (#[trigger] known[k]).path@ == p) && (forall|j: int|
            0 <= j < discovered.len() ==> (#[trigger] discovered[j]).path@ != p) ==> needs_clearing(
            known,
            discovered,
            p,
        ),
        (exists|j: int|
            0 <= j < discovered.len() && (#[trigger] discovered[j]).path@ == p && forall|k: int|
                0 <= k < known.len() && (#[trigger] known[k]).path@ == p ==> known[k].state.hash@
                    != discovered[j].hash@) ==> needs_clearing(known, discovered, p),
        needs_clearing(known, discovered, p) ==> (exists|k: int|
            0 <= k < known.len() && (#[trigger] known[k]).path@ == p) || (exists|j: int|
            0 <= j < discovered.len() && (#[trigger] discovered[j]).path@ == p),
{
    lemma_known_state_some(known, p);
    lemma_known_state_entry(known, p);
    if exists|j: int|
        0 <= j < discovered.len() && (#[trigger] discovered[j]).path@ == p && forall|k: int|
            0 <= k < known.len() && (#[trigger] known[k]).path@ == p ==> known[k].state.hash@
                != discovered[j].hash@ {
        let j = choose|j: int|
            0 <= j < discovered.len() && (#[trigger] discovered[j]).path@ == p && forall|k: int|
                0 <= k < known.len() && (#[trigger] known[k]).path@ == p ==> known[k].state.hash@
                    != discovered[j].hash@;
        if hash_current(known, discovered[j]) {
            let st = known_state(known, p)->0;
            let k = choose|k: int|
                0 <= k < known.len() && (#[trigger] known[k]).path@ == p && known[k].state == st;
            assert(known[k].state.hash@ != discovered[j].hash@);
        }
    }
}

/// The paths whose stored chunks must be deleted before indexing: those of
/// files that are gone, and of files whose content changed or was never
/// indexed, in ascending order and each once.
pub fn paths_to_clear(known: &[KnownFile], discovered: &[PendingFile]) -> (r: Vec<String>)
    ensures
        strictly_sorted(string_views(r@)),
        forall|p: Seq<char>| #[trigger]
            string_views(r@).contains(p) <==> needs_clearing(known@, discovered@, p),
        forall|k: int|
            0 <= k < known.len() && (forall|j: int|
                0 <= j < discovered.len() ==> (#[trigger] discovered@[j]).path@ != (
                #[trigger] known@[k]).path@) ==> string_views(r@).contains(known@[k].path@),
{
    proof {
        assert forall|k: int|
            0 <= k < known.len() && (forall|j: int|
                0 <= j < discovered.len() ==> (#[trigger] discovered@[j]).path@ != (
                #[trigger] known@[k]).path@) implies needs_clearing(
            known@,
            discovered@,
            known@[k].path@,
        ) by {
            lemma_clearing_laws(known@, discovered@, known@[k].path@);
        }
    }
    let mut acc: Vec<Vec<char>> = Vec::new();
    let mut i: usize = 0;
    while i < known.len()
        invariant
            i <= known.len(),
            strictly_sorted(views(acc@)),
            forall|p: Seq<char>| #[trigger]
                views(acc@).contains(p) <==> (exists|k: int|
                    0 <= k < i && (#[trigger] known@[k]).path@ == p) && !found_on_disk(
                    discovered@,
                    p,
                ),
        decreases known.len() - i,
    {
        let p = to_chars(known[i].path.as_str());
        if !discovered_has(discovered, p.as_slice()) {
            insert_sorted(&mut acc, p);
        }
        proof {
            assert forall|q: Seq<char>| #[trigger]
                views(acc@).contains(q) <==> (exists|k: int|
                    0 <= k < i + 1 && (#[trigger] known@[k]).path@ == q) && !found_on_disk(
                    discovered@,
                    q,
                ) by {
                if exists|k: int| 0 <= k < i + 1 && (#[trigger] known@[k]).path@ == q {
                    let k = choose|k: int| 0 <= k < i + 1 && (#[trigger] known@[k]).path@ == q;
                    if k < i {
                    }
                }
            }
        }
        i = i + 1;
    }
    let mut j: usize = 0;
    while j < discovered.len()
        invariant
            j <= discovered.len(),
            strictly_sorted(views(acc@)),
            forall|p: Seq<char>| #[trigger]
                views(acc@).contains(p) <==> ((exists|k: int|
                    0 <= k < known.len() && (#[trigger] known@[k]).path@ == p) && !found_on_disk(
                    discovered@,
                    p,
                ) || exists|m: int|
                    0 <= m < j && (#[trigger] discovered@[m]).path@ == p && !hash_current(
                        known@,
                        discovered@[m],
                    )),
        decreases discovered.len() - j,
    {
        let p = to_chars(discovered[j].path.as_str());
        let changed = match lookup_known(known, p.as_slice()) {
            Some(k) => {
                let stored = to_chars(known[k].state.hash.as_str());
                let now = to_chars(discovered[j].hash.as_str());
                !chars_eq(stored.as_slice(), now.as_slice())
            },
            None => true,
        };
        assert(changed == !hash_current(known@, discovered@[j as int]));
        if changed {
            insert_sorted(&mut acc, p);
        }
        proof {
            assert forall|q: Seq<char>| #[trigger]
                views(acc@).contains(q) <==> ((exists|k: int|
                    0 <= k < known.len() && (#[trigger] known@[k]).path@ == q) && !found_on_disk(
                    discovered@,
                    q,
                ) || exists|m: int|
                    0 <= m < j + 1 && (#[trigger] discovered@[m]).path@ == q && !hash_current(
                        known@,
                        discovered@[m],
                    )) by {
                if exists|m: int|
                    0 <= m < j + 1 && (#[trigger] discovered@[m]).path@ == q && !hash_current(
                        known@,
                        discovered@[m],
                    ) {
                    let m = choose|m: int|
                        0 <= m < j + 1 && (#[trigger] discovered@[m]).path@ == q && !hash_current(
                            known@,
                            discovered@[m],
                        );
                    if m < j {
                    }
                }
            }
        }
        j = j + 1;
    }
    let mut r: Vec<String> = Vec::new();
    let mut t: usize = 0;
    while t < acc.len()
        invariant
            t <= acc.len(),
            string_views(r@) == views(acc@).take(t as int),
        decreases acc.len() - t,
    {
        r.push(from_chars(acc[t].as_slice()));
        assert(views(acc@).take(t + 1) == views(acc@).take(t as int).push(acc@[t as int]@));
        assert(string_views(r@) =~= views(acc@).take(t + 1));
        t = t + 1;
    }
    assert(views(acc@).take(acc.len() as int) == views(acc@));
    proof {
        assert forall|p: Seq<char>| #[trigger]
            string_views(r@).contains(p) <==> needs_clearing(
                known@,
                discovered@,
                p,
            ) by {
            lemma_known_state_some(known@, p);
        }
    }
    r
}

/// Whether `f` is still to be indexed: the index does not hold it with its
/// current hash, or holds it only in part.
pub open spec fn needs_indexing(known: Seq<KnownFile>, f: PendingFile) -> bool {
    !(known_state(known, f.path@) matches Some(st) && st.hash@ == f.hash@ && st.complete)
}

/// The positions, among the first `k` files, of those still to be indexed.
pub open spec fn files_needing(known: Seq<KnownFile>, files: Seq<PendingFile>, k: int) -> Seq<usize>
    decreases k,
{
    if k <= 0 {
        Seq::empty()
    } else if needs_indexing(known, files[k - 1]) {
        files_needing(known, files, k - 1).push((k - 1) as usize)
    } else {
        files_needing(known, files, k - 1)
    }
}

/// Reindexing is incremental: a position is selected exactly when it is the
/// position of a file that the index does not hold complete with its current
/// hash.
pub proof fn lemma_files_needing_exact(
    known: Seq<KnownFile>,
    files: Seq<PendingFile>,
    k: int,
    i: usize,
)
    requires
        0 <= k <= files.len(),
        k <= usize::MAX,
    ensures
        files_needing(known, files, k).contains(i) <==> (i < k && needs_indexing(
            known,
            files[i as int],
        )),
    decreases k,
{
    if k > 0 {
        lemma_files_needing_exact(known, files, k - 1, i);
        let prev = files_needing(known, files, k - 1);
        if needs_indexing(known, files[k - 1]) {
            let cur = prev.push((k - 1) as usize);
            assert(cur[prev.len() as int] == (k - 1) as usize);
            if prev.contains(i) {
                let j = choose|j: int| 0 <= j < prev.len() && prev[j] == i;
                assert(cur[j] == prev[j]);
            }
            if cur.contains(i) {
                let j = choose|j: int| 0 <= j < cur.len() && cur[j] == i;
                if j < prev.len() {
                    assert(prev[j] == cur[j]);
                }
            }
        }
    }
}

/// The positions of the files still to be indexed, in order.
pub fn files_to_process(known: &[KnownFile], files: &[PendingFile]) -> (r: Vec<usize>)
    ensures
        r@ == files_needing(known@, files@, files.len() as int),
{
    let mut r: Vec<usize> = Vec::new();
    let mut i: usize = 0;
    while i < files.len()
        invariant
            i <= files.len(),
            r@ == files_needing(known@, files@, i as int),
        decreases files.len() - i,
    {
        let p = to_chars(files[i].path.as_str());
        let skip = match lookup_known(known, p.as_slice()) {
            Some(k) => {
                let stored = to_chars(known[k].state.hash.as_str());
                let now = to_chars(files[i].hash.as_str());
                chars_eq(stored.as_slice(), now.as_slice()) && known[k].state.complete
            },
            None => false,
        };
        if !skip {
            r.push(i);
        }
        i = i + 1;
    }
    r
}

/// Only changed files are reindexed: among files found at distinct paths, a
/// file that the index holds complete with its current hash keeps its stored
/// chunks and is not embedded again, while a file whose content the index does
/// not hold has its stored chunks deleted and is embedded again.
pub proof fn lemma_reindex_follows_content(
    known: Seq<KnownFile>,
    discovered: Seq<PendingFile>,
    i: usize,
)
    requires
        0 <= i < discovered.len() <= usize::MAX,
        forall|a: int, b: int|
            0 <= a < b < discovered.len() ==> (#[trigger] discovered[a]).path@ != (
            #[trigger] discovered[b]).path@,
    ensures
        !needs_indexing(known, discovered[i as int]) ==> !needs_clearing(
            known,
            discovered,
            discovered[i as int].path@,
        ) && !files_needing(known, discovered, discovered.len() as int).contains(i),
        !hash_current(known, discovered[i as int]) ==> needs_clearing(
            known,
            discovered,
            discovered[i as int].path@,
        ) && files_needing(known, discovered, discovered.len() as int).contains(i),
{
    let f = discovered[i as int];
    lemma_files_needing_exact(known, discovered, discovered.len() as int, i);
    assert(found_on_disk(discovered, f.path@));
    if !needs_indexing(known, f) {
        assert(hash_current(known, f));
        if exists|j: int|
            0 <= j < discovered.len() && (#[trigger] discovered[j]).path@ == f.path@
                && !hash_current(known, discovered[j]) {
            let j = choose|j: int|
                0 <= j < discovered.len() && (#[trigger] discovered[j]).path@ == f.path@
                    && !hash_current(known, discovered[j]);
            if j < i {
                assert(discovered[j].path@ != discovered[i as int].path@);
            } else if j > i {
                assert(discovered[i as int].path@ != discovered[j].path@);
            }
        }
    }
}

/// Whether the index already holds the base chunk `c` (under split path 1).
pub open spec fn chunk_stored(existing: Set<i64>, c: ChunkView) -> bool {
    existing.contains(key_of(c.chunk_index as i64, 1))
}

/// The chunks of `cs` that the index does not hold yet, in order.
pub open spec fn unstored_chunks(cs: Seq<ChunkView>, existing: Set<i64>) -> Seq<ChunkView>
    decreases cs.len(),
{
    if cs.len() == 0 {
        Seq::empty()
    } else if chunk_stored(existing, cs.last()) {
        unstored_chunks(cs.drop_last(), existing)
    } else {
        unstored_chunks(cs.drop_last(), existing).push(cs.last())
    }
}

/// Only new base chunks are embedded: a chunk is kept exactly when it is one
/// of the file's chunks and the index does not hold it.
pub proof fn lemma_unstored_chunks_exact(cs: Seq<ChunkView>, existing: Set<i64>, c: ChunkView)
    ensures
        unstored_chunks(cs, existing).contains(c) <==> (cs.contains(c) && !chunk_stored(
            existing,
            c,
        )),
    decreases cs.len(),
{
    if cs.len() > 0 {
        let dl = cs.drop_last();
        lemma_unstored_chunks_exact(dl, existing, c);
        let prev = unstored_chunks(dl, existing);
        assert(cs == dl.push(cs.last()));
        if cs.contains(c) && c != cs.last() {
            let j = choose|j: int| 0 <= j < cs.len() && cs[j] == c;
            assert(dl[j] == c);
        }
        if dl.contains(c) {
            let j = choose|j: int| 0 <= j < dl.len() && dl[j] == c;
            assert(cs[j] == c);
        }
        if !chunk_stored(existing, cs.last()) {
            let cur = prev.push(cs.last());
            assert(cur[prev.len() as int] == cs.last());
            if prev.contains(c) {
                let j = choose|j: int| 0 <= j < prev.len() && prev[j] == c;
                assert(cur[j] == c);
            }
            if cur.contains(c) {
                let j = choose|j: int| 0 <= j < cur.len() && cur[j] == c;
                if j < prev.len() {
                    assert(prev[j] == c);
                }
            }
        }
    }
}

fn key_stored(existing: &HashSet<i64>, key: i64) -> (r: bool)
    ensures
        r == existing@.contains(key),
{
    broadcast use vstd::std_specs::hash::group_hash_axioms;

    existing.contains(&key)
}

/// The base chunks of a file that are still to be embedded: those whose key
/// (with split path 1) the index does not hold.
pub fn pending_chunks(chunks: &[LineChunk], existing: &HashSet<i64>) -> (r: Vec<LineChunk>)
    ensures
        chunk_views(r@) == unstored_chunks(chunk_views(chunks@), existing@),
{
    let mut r: Vec<LineChunk> = Vec::new();
    let mut i: usize = 0;
    while i < chunks.len()
        invariant
            i <= chunks.len(),
            chunk_views(r@) == unstored_chunks(chunk_views(chunks@).take(i as int), existing@),
        decreases chunks.len() - i,
    {
        let key = chunk_index_key(chunks[i].chunk_index as i64, 1);
        assert(chunk_views(chunks@).take(i + 1).drop_last() == chunk_views(chunks@).take(i as int));
        assert(chunk_views(chunks@).take(i + 1).last() == chunks@[i as int]@);
        if !key_stored(existing, key) {
            let ghost before = r@;
            r.push(chunks[i].duplicate());
            assert(chunk_views(r@) == chunk_views(before).push(chunks@[i as int]@));
        }
        i = i + 1;
    }
    assert(chunk_views(chunks@).take(chunks.len() as int) == chunk_views(chunks@));
    r
}

} // verus!
