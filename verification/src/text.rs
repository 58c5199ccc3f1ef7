//! Cutting file contents into chunks for embedding, content hashing and
//! one-line previews.
use sha2::{Digest, Sha256};
use vstd::prelude::*;

use crate::strings::{
    copy_range, from_chars, is_ws, join, join_chars, join_range, lemma_join_words_single_spaced,
    lemma_single_spaced_rejoin, lemma_words_are_words, lines, single_spaced, split_lines,
    split_words, to_chars, views, words,
};

verus! {

/// A piece of a file: the lines `start_line..=end_line` (counted from 1), or a
/// part of one long line.
#[derive(Debug, Clone)]
pub struct LineChunk {
    pub chunk_index: usize,
    pub start_line: usize,
    pub end_line: usize,
    pub text: String,
}

/// The mathematical value of a [`LineChunk`].
pub struct ChunkView {
    pub chunk_index: int,
    pub start_line: int,
    pub end_line: int,
    pub text: Seq<char>,
}

impl View for LineChunk {
    type V = ChunkView;

    open spec fn view(&self) -> ChunkView {
        ChunkView {
            chunk_index: self.chunk_index as int,
            start_line: self.start_line as int,
            end_line: self.end_line as int,
            text: self.text@,
        }
    }
}

impl LineChunk {
    /// A copy of this chunk.
    pub fn duplicate(&self) -> (r: LineChunk)
        ensures
            r@ == self@,
    {
        LineChunk {
            chunk_index: self.chunk_index,
            start_line: self.start_line,
            end_line: self.end_line,
            text: self.text.clone(),
        }
    }
}

/// The views of a sequence of chunks.
pub open spec fn chunk_views(cs: Seq<LineChunk>) -> Seq<ChunkView> {
    cs.map_values(|c: LineChunk| c@)
}

// ---------------------------------------------------------------------------
// Splitting one long line by a character budget
// ---------------------------------------------------------------------------

/// The full pieces and the piece in progress after reading `s` from the left,
/// closing a piece whenever it reaches `m` characters.
pub open spec fn fragments_state(s: Seq<char>, m: int) -> (Seq<Seq<char>>, Seq<char>)
    decreases s.len(),
{
    if s.len() == 0 {
        (Seq::empty(), Seq::empty())
    } else {
        let (done, cur) = fragments_state(s.drop_last(), m);
        let grown = cur.push(s.last());
        if grown.len() == m {
            (done.push(grown), Seq::empty())
        } else {
            (done, grown)
        }
    }
}

/// `s` cut, from the left, into pieces of `m` characters; the last piece holds
/// what remains and is left out when nothing remains.
pub open spec fn fragments(s: Seq<char>, m: int) -> Seq<Seq<char>> {
    let (done, cur) = fragments_state(s, m);
    if cur.len() > 0 {
        done.push(cur)
    } else {
        done
    }
}

/// The pieces of `ss` put together in order.
pub open spec fn concat_all(ss: Seq<Seq<char>>) -> Seq<char>
    decreases ss.len(),
{
    if ss.len() == 0 {
        Seq::empty()
    } else {
        concat_all(ss.drop_last()) + ss.last()
    }
}

proof fn lemma_fragments_state_rebuild(s: Seq<char>, m: int)
    requires
        m >= 1,
    ensures
        concat_all(fragments_state(s, m).0) + fragments_state(s, m).1 == s,
        fragments_state(s, m).1.len() < m,
        forall|j: int|
            0 <= j < fragments_state(s, m).0.len() ==> (#[trigger] fragments_state(s, m).0[j]).len()
                == m,
    decreases s.len(),
{
    if s.len() > 0 {
        lemma_fragments_state_rebuild(s.drop_last(), m);
        let (done, cur) = fragments_state(s.drop_last(), m);
        let grown = cur.push(s.last());
        assert(s == s.drop_last().push(s.last()));
        if grown.len() == m {
            assert(done.push(grown).drop_last() == done);
            assert(concat_all(done.push(grown)) == concat_all(done) + grown);
        }
    }
}

/// Cutting a long line by a budget of `m` characters keeps it whole: its
/// pieces put together give the line back, and each piece holds between 1 and
/// `m` characters.
pub proof fn lemma_fragments_rebuild(s: Seq<char>, m: int)
    requires
        m >= 1,
    ensures
        concat_all(fragments(s, m)) == s,
        forall|j: int|
            0 <= j < fragments(s, m).len() ==> 0 < (#[trigger] fragments(s, m)[j]).len() <= m,
{
    lemma_fragments_state_rebuild(s, m);
    let (done, cur) = fragments_state(s, m);
    if cur.len() > 0 {
        assert(done.push(cur).drop_last() == done);
        assert(forall|j: int| 0 <= j < done.len() ==> done.push(cur)[j] == done[j]);
    } else {
        assert(concat_all(done) + cur == concat_all(done));
    }
}

/// Cuts `text` into pieces of `max_chars` characters (the last may be shorter).
fn split_text_into_chunks(text: &[char], max_chars: usize) -> (r: Vec<Vec<char>>)
    requires
        max_chars >= 1,
    ensures
        views(r@) == fragments(text@, max_chars as int),
        forall|j: int| 0 <= j < r.len() ==> 0 < (#[trigger] r@[j])@.len() <= max_chars,
        text@.len() > 0 ==> r.len() > 0,
{
    let mut done: Vec<Vec<char>> = Vec::new();
    let mut cur: Vec<char> = Vec::new();
    let mut i: usize = 0;
    while i < text.len()
        invariant
            max_chars >= 1,
            i <= text.len(),
            (views(done@), cur@) == fragments_state(text@.take(i as int), max_chars as int),
            cur.len() < max_chars,
            forall|j: int| 0 <= j < done.len() ==> (#[trigger] done@[j])@.len() == max_chars,
            i > 0 ==> done.len() > 0 || cur.len() > 0,
        decreases text.len() - i,
    {
        assert(text@.take(i + 1).drop_last() == text@.take(i as int));
        assert(text@.take(i + 1).last() == text@[i as int]);
        cur.push(text[i]);
        if cur.len() == max_chars {
            done.push(cur);
            cur = Vec::new();
            assert(views(done@) == fragments_state(text@.take(i as int), max_chars as int).0.push(
                fragments_state(text@.take(i as int), max_chars as int).1.push(text@[i as int]),
            ));
        }
        i = i + 1;
    }
    assert(text@.take(text.len() as int) == text@);
    if cur.len() > 0 {
        done.push(cur);
        assert(views(done@) == fragments_state(text@, max_chars as int).0.push(
            fragments_state(text@, max_chars as int).1,
        ));
    }
    done
}

// ---------------------------------------------------------------------------
// The chunking plan
// ---------------------------------------------------------------------------

/// What one chunk costs in characters when line `j` is added to a chunk that
/// starts at line `start`: the line, plus the `\n` before it unless it is the
/// first line.
pub open spec fn line_cost(ls: Seq<Seq<char>>, start: int, j: int) -> int {
    if j == start {
        ls[j].len() as int
    } else {
        ls[j].len() + 1int
    }
}

/// How the scan for one chunk ends.
pub enum ScanEnd {
    /// Line `le` is longer than the budget and opens the chunk: it is cut by characters.
    Split(int),
    /// The chunk holds the lines `start..le`.
    Stop(int),
}

/// Greedily adds lines `le, le+1, ..` (up to `end`) to a chunk that starts at
/// `start` and already holds `used` characters, within a budget of `maxc`
/// characters.
pub open spec fn scan(
    ls: Seq<Seq<char>>,
    start: int,
    le: int,
    end: int,
    used: int,
    maxc: int,
) -> ScanEnd
    decreases end - le,
{
    if le >= end {
        ScanEnd::Stop(le)
    } else {
        let lc = ls[le].len() as int;
        let cost = line_cost(ls, start, le);
        if le == start && lc > maxc {
            ScanEnd::Split(le)
        } else if le > start && used + cost > maxc {
            ScanEnd::Stop(le)
        } else {
            scan(ls, start, le + 1, end, used + cost, maxc)
        }
    }
}

/// The chunks that the pieces `fr` of one long line make, numbered from `idx`,
/// all reported at line `line`.
pub open spec fn fragment_chunks(fr: Seq<Seq<char>>, idx: int, line: int) -> Seq<ChunkView> {
    Seq::new(
        fr.len(),
        |j: int| ChunkView { chunk_index: idx + j, start_line: line, end_line: line, text: fr[j] },
    )
}

/// The chunks of the lines `ls` from line `start` on, numbered from `idx`, with
/// at most `lpc` lines and a budget of `maxc` characters per chunk, and `ov`
/// lines shared between neighbouring chunks.
pub open spec fn chunks_from(
    ls: Seq<Seq<char>>,
    start: int,
    idx: int,
    lpc: int,
    maxc: int,
    ov: int,
) -> Seq<ChunkView>
    decreases ls.len() - start,
{
    let n = ls.len() as int;
    if start < 0 || start >= n || lpc < 1 || ov < 0 {
        Seq::empty()
    } else {
        let end = if start + lpc < n {
            start + lpc
        } else {
            n
        };
        match scan(ls, start, start, end, 0, maxc) {
            ScanEnd::Split(le) => {
                let fr = fragments(ls[le], maxc);
                fragment_chunks(fr, idx, start + 1) + chunks_from(
                    ls,
                    start + 1,
                    idx + fr.len(),
                    lpc,
                    maxc,
                    ov,
                )
            },
            ScanEnd::Stop(le) => {
                if le <= start || le > n {
                    chunks_from(ls, start + 1, idx, lpc, maxc, ov)
                } else {
                    let c = ChunkView {
                        chunk_index: idx,
                        start_line: start + 1,
                        end_line: le,
                        text: join(ls.subrange(start, le), seq!['\n']),
                    };
                    if le == n {
                        seq![c]
                    } else {
                        let next = if le - start > ov {
                            le - ov
                        } else {
                            le
                        };
                        seq![c] + chunks_from(ls, next, idx + 1, lpc, maxc, ov)
                    }
                }
            },
        }
    }
}

/// `v`, but at least 1.
pub open spec fn at_least_one(v: int) -> int {
    if v < 1 {
        1
    } else {
        v
    }
}

/// The lines shared between neighbouring chunks: `overlap`, but fewer than the
/// lines of a chunk.
pub open spec fn effective_overlap(overlap: int, lpc: int) -> int {
    if overlap < lpc - 1 {
        overlap
    } else {
        lpc - 1
    }
}

/// The chunks of `content` for the given settings: `chunk_lines` and
/// `max_chars` count as at least 1, and the overlap as less than
/// `chunk_lines`.
pub open spec fn chunk_plan(content: Seq<char>, chunk_lines: int, max_chars: int, overlap: int) -> Seq<
    ChunkView,
> {
    let lpc = at_least_one(chunk_lines);
    chunks_from(
        lines(content),
        0,
        0,
        lpc,
        at_least_one(max_chars),
        effective_overlap(overlap, lpc),
    )
}

/// The line at which the chunk after `c` starts when `c` was cut from whole
/// lines: `ov` lines before its end, so that the two share `ov` lines, when it
/// spans more than `ov` lines; else the line after its end.
pub open spec fn next_start_line(c: ChunkView, ov: int) -> int {
    if c.end_line - c.start_line + 1 > ov {
        c.end_line - ov + 1
    } else {
        c.end_line + 1
    }
}

/// Whether chunk `b` may follow chunk `a` when neighbouring chunks share `ov`
/// lines: after a chunk of several lines the next starts at
/// [`next_start_line`]; after a chunk of one line (which may be a piece of a
/// long line) the next starts on the same line or the line after.
pub open spec fn follows(a: ChunkView, b: ChunkView, ov: int) -> bool {
    if a.end_line > a.start_line {
        b.start_line == next_start_line(a, ov)
    } else {
        b.start_line == a.start_line || b.start_line == a.start_line + 1
    }
}

/// Whether the chunk that starts at `start` (counted from 0) may follow the
/// last chunk of `cs`.
pub open spec fn frontier_ok(cs: Seq<ChunkView>, start: int, ov: int) -> bool {
    cs.len() > 0 ==> {
        let last = cs.last();
        if last.end_line > last.start_line {
            start + 1 == next_start_line(last, ov)
        } else {
            start + 1 == last.start_line || start + 1 == last.start_line + 1
        }
    }
}

/// Cuts `content` into chunks of at most `chunk_lines` lines and at most
/// `max_chars` characters, with `overlap` lines repeated between neighbouring
/// chunks. A line longer than the character budget is cut into pieces of
/// `max_chars` characters, each a chunk of its own.
#[verifier::rlimit(60)]
pub fn chunk_text(content: &str, chunk_lines: usize, max_chars: usize, overlap: usize) -> (chunks:
    Vec<LineChunk>)
    ensures
        chunk_views(chunks@) == chunk_plan(content@, chunk_lines as int, max_chars as int, overlap as int),
        (chunks.len() == 0) == (lines(content@).len() == 0),
        forall|i: int| 0 <= i < chunks.len() ==> (#[trigger] chunks@[i]).chunk_index == i,
        forall|i: int|
            0 <= i < chunks.len() ==> {
                &&& 1 <= (#[trigger] chunks@[i]).start_line <= chunks@[i].end_line <= lines(content@).len()
                &&& chunks@[i].end_line - chunks@[i].start_line < at_least_one(chunk_lines as int)
            },
        forall|i: int|
            0 <= i < chunks.len() ==> (#[trigger] chunks@[i]).text@.len() <= at_least_one(
                max_chars as int,
            ),
        forall|i: int|
            0 <= i < chunks.len() - 1 ==> follows(
                (#[trigger] chunks@[i])@,
                chunks@[i + 1]@,
                effective_overlap(overlap as int, at_least_one(chunk_lines as int)),
            ),
        forall|i: int|
            0 <= i < chunks.len() ==> chunk_holds_its_lines(
                (#[trigger] chunks@[i])@,
                lines(content@),
                at_least_one(max_chars as int),
            ),
{
    let chars = to_chars(content);
    let line_vecs = split_lines(chars.as_slice());
    let ghost ls = views(line_vecs@);
    let n = line_vecs.len();
    if n == 0 {
        return Vec::new();
    }
    let lpc: usize = if chunk_lines < 1 {
        1
    } else {
        chunk_lines
    };
    let maxc: usize = if max_chars < 1 {
        1
    } else {
        max_chars
    };
    let ov: usize = if overlap < lpc - 1 {
        overlap
    } else {
        lpc - 1
    };
    let newline: Vec<char> = vec!['\n'];
    let ghost nl = newline@;
    assert(nl == seq!['\n']);
    let ghost total = chunks_from(ls, 0, 0, lpc as int, maxc as int, ov as int);

    let mut chunks: Vec<LineChunk> = Vec::new();
    let mut start: usize = 0;
    while start < n
        invariant_except_break
            frontier_ok(chunk_views(chunks@), start as int, ov as int),
            chunk_views(chunks@) + chunks_from(
                ls,
                start as int,
                chunks.len() as int,
                lpc as int,
                maxc as int,
                ov as int,
            ) == total,
        invariant
            n == line_vecs.len(),
            ls == views(line_vecs@),
            ls == lines(content@),
            nl == newline@,
            nl == seq!['\n'],
            total == chunks_from(ls, 0, 0, lpc as int, maxc as int, ov as int),
            n >= 1,
            lpc >= 1,
            maxc >= 1,
            ov < lpc,
            start <= n,
            start > 0 ==> chunks.len() > 0,
            forall|i: int| 0 <= i < chunks.len() ==> (#[trigger] chunks@[i]).chunk_index == i,
            forall|i: int|
                0 <= i < chunks.len() ==> {
                    &&& 1 <= (#[trigger] chunks@[i]).start_line <= chunks@[i].end_line <= n
                    &&& chunks@[i].end_line - chunks@[i].start_line < lpc
                },
            forall|i: int|
                0 <= i < chunks.len() ==> (#[trigger] chunks@[i]).text@.len() <= maxc,
            forall|i: int|
                0 <= i < chunks.len() - 1 ==> follows(
                    (#[trigger] chunks@[i])@,
                    chunks@[i + 1]@,
                    ov as int,
                ),
        ensures
            chunk_views(chunks@) == total,
            chunks.len() > 0,
            forall|i: int|
                0 <= i < chunks.len() - 1 ==> follows(
                    (#[trigger] chunks@[i])@,
                    chunks@[i + 1]@,
                    ov as int,
                ),
        decreases n - start,
    {
        let end: usize = if lpc >= n - start {
            n
        } else {
            start + lpc
        };
        let mut used: u128 = 0;
        let mut split_single_line = false;
        let mut line_end: usize = start;
        while line_end < end
            invariant_except_break
                scan(ls, start as int, start as int, end as int, 0, maxc as int) == scan(
                    ls,
                    start as int,
                    line_end as int,
                    end as int,
                    used as int,
                    maxc as int,
                ),
                !split_single_line,
            invariant
                n == line_vecs.len(),
                ls == views(line_vecs@),
                nl == seq!['\n'],
                maxc >= 1,
                start < end <= n,
                start <= line_end <= end,
                used == join(ls.subrange(start as int, line_end as int), nl).len(),
                used <= maxc,
                line_end == start + 1 ==> used == ls[start as int].len(),
            ensures
                split_single_line ==> line_end < end && scan(
                    ls,
                    start as int,
                    start as int,
                    end as int,
                    0,
                    maxc as int,
                ) == ScanEnd::Split(line_end as int) && line_end == start && line_vecs@[line_end as int].len()
                    > maxc,
                !split_single_line ==> line_end > start && scan(
                    ls,
                    start as int,
                    start as int,
                    end as int,
                    0,
                    maxc as int,
                ) == ScanEnd::Stop(line_end as int),
            decreases end - line_end,
        {
            let lc = line_vecs[line_end].len();
            let cost: u128 = if line_end == start {
                lc as u128
            } else {
                lc as u128 + 1
            };
            if line_end == start && lc > maxc {
                split_single_line = true;
                break;
            }
            if line_end > start && used + cost > maxc as u128 {
                break;
            }
            proof {
                let sub = ls.subrange(start as int, line_end + 1);
                assert(sub.drop_last() == ls.subrange(start as int, line_end as int));
                assert(sub.last() == ls[line_end as int]);
                if line_end == start {
                    assert(sub.len() == 1);
                } else if line_end == start + 1 {
                    assert(ls.subrange(start as int, line_end as int).len() == 1);
                }
            }
            used = used + cost;
            line_end = line_end + 1;
        }
        if split_single_line {
            let frags = split_text_into_chunks(line_vecs[line_end].as_slice(), maxc);
            let ghost before = chunk_views(chunks@);
            let ghost fr = views(frags@);
            assert(fr == fragments(ls[line_end as int], maxc as int));
            let mut j: usize = 0;
            while j < frags.len()
                invariant
                    fr == views(frags@),
                    forall|k: int| 0 <= k < frags.len() ==> 0 < (#[trigger] frags@[k])@.len() <= maxc,
                    j <= frags.len(),
                    start < n,
                    lpc >= 1,
                    chunks.len() == before.len() + j,
                    chunk_views(chunks@) == before + fragment_chunks(
                        fr.take(j as int),
                        before.len() as int,
                        start + 1,
                    ),
                    forall|i: int| 0 <= i < chunks.len() ==> (#[trigger] chunks@[i]).chunk_index == i,
                    forall|i: int|
                        0 <= i < chunks.len() ==> {
                            &&& 1 <= (#[trigger] chunks@[i]).start_line <= chunks@[i].end_line <= n
                            &&& chunks@[i].end_line - chunks@[i].start_line < lpc
                        },
                    forall|i: int|
                        0 <= i < chunks.len() ==> (#[trigger] chunks@[i]).text@.len() <= maxc,
                    forall|i: int|
                        0 <= i < chunks.len() - 1 ==> follows(
                            (#[trigger] chunks@[i])@,
                            chunks@[i + 1]@,
                            ov as int,
                        ),
                    frontier_ok(chunk_views(chunks@), start as int, ov as int),
                    j > 0 ==> chunks@[chunks.len() - 1].start_line == start + 1
                        && chunks@[chunks.len() - 1].end_line == start + 1,
                    frags.len() > 0,
                decreases frags.len() - j,
            {
                let text = from_chars(frags[j].as_slice());
                let chunk = LineChunk {
                    chunk_index: chunks.len(),
                    start_line: start + 1,
                    end_line: start + 1,
                    text,
                };
                let ghost old_chunks = chunks@;
                chunks.push(chunk);
                assert(chunk_views(chunks@) == chunk_views(old_chunks).push(chunk@));
                assert(fragment_chunks(fr.take(j + 1), before.len() as int, start + 1)
                    == fragment_chunks(fr.take(j as int), before.len() as int, start + 1).push(
                    chunk@,
                ));
                j = j + 1;
            }
            assert(fr.take(frags.len() as int) == fr);
            assert(chunk_views(chunks@) + chunks_from(
                ls,
                start + 1,
                chunks.len() as int,
                lpc as int,
                maxc as int,
                ov as int,
            ) == before + (fragment_chunks(fr, before.len() as int, start + 1) + chunks_from(
                ls,
                start + 1,
                (before.len() + fr.len()) as int,
                lpc as int,
                maxc as int,
                ov as int,
            )));
            start = start + 1;
            continue ;
        }
        if line_end == start {
            start = start + 1;
            continue ;
        }
        let text_chars = join_range(line_vecs.as_slice(), start, line_end, newline.as_slice());
        let chunk = LineChunk {
            chunk_index: chunks.len(),
            start_line: start + 1,
            end_line: line_end,
            text: from_chars(text_chars.as_slice()),
        };
        let ghost old_chunks = chunks@;
        chunks.push(chunk);
        assert(chunk_views(chunks@) == chunk_views(old_chunks).push(chunk@));
        if line_end == n {
            break;
        }
        let chunk_len = line_end - start;
        let next_start = if chunk_len > ov {
            line_end - ov
        } else {
            line_end
        };
        assert(chunk_views(chunks@) + chunks_from(
            ls,
            next_start as int,
            chunks.len() as int,
            lpc as int,
            maxc as int,
            ov as int,
        ) == chunk_views(old_chunks) + (seq![chunk@] + chunks_from(
            ls,
            next_start as int,
            old_chunks.len() + 1int,
            lpc as int,
            maxc as int,
            ov as int,
        )));
        start = next_start;
    }
    proof {
        let plan = chunk_plan(content@, chunk_lines as int, max_chars as int, overlap as int);
        lemma_chunk_texts_are_lines(content@, chunk_lines as int, max_chars as int, overlap as int);
        assert(chunk_views(chunks@) == plan);
        assert forall|i: int| 0 <= i < chunks.len() implies chunk_holds_its_lines(
            (#[trigger] chunks@[i])@,
            lines(content@),
            at_least_one(max_chars as int),
        ) by {
            assert(chunk_views(chunks@)[i] == chunks@[i]@);
            assert(chunk_holds_its_lines(plan[i], lines(content@), at_least_one(max_chars as int)));
        }
    }
    chunks
}

/// Whether chunk `c` is what it claims of the lines `ls`: its line range lies
/// within them, and its text is exactly those lines joined by `\n`, unless it
/// is a piece of a single line longer than the budget `maxc`, of at most
/// `maxc` characters.
pub open spec fn chunk_holds_its_lines(c: ChunkView, ls: Seq<Seq<char>>, maxc: int) -> bool {
    &&& 1 <= c.start_line <= c.end_line <= ls.len()
    &&& c.text == join(ls.subrange(c.start_line - 1, c.end_line), seq!['\n']) || (c.start_line
        == c.end_line && ls[c.start_line - 1].len() > maxc && 0 < c.text.len() <= maxc)
}

proof fn lemma_chunks_from_hold_lines(
    ls: Seq<Seq<char>>,
    start: int,
    idx: int,
    lpc: int,
    maxc: int,
    ov: int,
)
    requires
        0 <= start,
        lpc >= 1,
        ov >= 0,
        maxc >= 1,
    ensures
        forall|i: int|
            0 <= i < chunks_from(ls, start, idx, lpc, maxc, ov).len() ==> chunk_holds_its_lines(
                #[trigger] chunks_from(ls, start, idx, lpc, maxc, ov)[i],
                ls,
                maxc,
            ),
    decreases ls.len() - start,
{
    let n = ls.len() as int;
    let cf = chunks_from(ls, start, idx, lpc, maxc, ov);
    if start < n {
        let end = if start + lpc < n {
            start + lpc
        } else {
            n
        };
        lemma_scan_shape(ls, start, start, end, 0, maxc);
        match scan(ls, start, start, end, 0, maxc) {
            ScanEnd::Split(le) => {
                let fr = fragments(ls[le], maxc);
                lemma_fragments_rebuild(ls[le], maxc);
                let head = fragment_chunks(fr, idx, start + 1);
                let rest = chunks_from(ls, start + 1, idx + fr.len(), lpc, maxc, ov);
                lemma_chunks_from_hold_lines(ls, start + 1, idx + fr.len(), lpc, maxc, ov);
                assert(cf == head + rest);
                assert forall|i: int| 0 <= i < cf.len() implies chunk_holds_its_lines(
                    #[trigger] cf[i],
                    ls,
                    maxc,
                ) by {
                    if i < head.len() {
                        assert(cf[i] == head[i]);
                        assert(0 < fr[i].len() <= maxc);
                    } else {
                        assert(cf[i] == rest[i - head.len()]);
                    }
                }
            },
            ScanEnd::Stop(le) => {
                if le <= start || le > n {
                    lemma_chunks_from_hold_lines(ls, start + 1, idx, lpc, maxc, ov);
                } else {
                    let c = ChunkView {
                        chunk_index: idx,
                        start_line: start + 1,
                        end_line: le,
                        text: join(ls.subrange(start, le), seq!['\n']),
                    };
                    assert(chunk_holds_its_lines(c, ls, maxc));
                    if le == n {
                        assert(cf == seq![c]);
                    } else {
                        let next = if le - start > ov {
                            le - ov
                        } else {
                            le
                        };
                        let rest = chunks_from(ls, next, idx + 1, lpc, maxc, ov);
                        lemma_chunks_from_hold_lines(ls, next, idx + 1, lpc, maxc, ov);
                        assert(cf == seq![c] + rest);
                        assert forall|i: int| 0 <= i < cf.len() implies chunk_holds_its_lines(
                            #[trigger] cf[i],
                            ls,
                            maxc,
                        ) by {
                            if i > 0 {
                                assert(cf[i] == rest[i - 1]);
                            }
                        }
                    }
                }
            },
        }
    }
}

/// Every chunk holds the lines its range names, whatever the overlap: a
/// chunk cut from whole lines has as its text exactly the lines
/// `start_line..=end_line` of the content joined by `\n`; the only other
/// chunks are pieces, of at most the budget, of a single line longer than
/// the budget.
pub proof fn lemma_chunk_texts_are_lines(
    content: Seq<char>,
    chunk_lines: int,
    max_chars: int,
    overlap: int,
)
    requires
        overlap >= 0,
    ensures
        forall|i: int|
            0 <= i < chunk_plan(content, chunk_lines, max_chars, overlap).len()
                ==> chunk_holds_its_lines(
                #[trigger] chunk_plan(content, chunk_lines, max_chars, overlap)[i],
                lines(content),
                at_least_one(max_chars),
            ),
{
    let lpc = at_least_one(chunk_lines);
    lemma_chunks_from_hold_lines(
        lines(content),
        0,
        0,
        lpc,
        at_least_one(max_chars),
        effective_overlap(overlap, lpc),
    );
}

/// The texts of a sequence of chunks.
pub open spec fn chunk_texts(cs: Seq<ChunkView>) -> Seq<Seq<char>> {
    cs.map_values(|c: ChunkView| c.text)
}

proof fn lemma_join_append(a: Seq<Seq<char>>, b: Seq<Seq<char>>, sep: Seq<char>)
    requires
        a.len() > 0,
        b.len() > 0,
    ensures
        join(a + b, sep) == join(a, sep) + sep + join(b, sep),
    decreases b.len(),
{
    assert((a + b).drop_last() == a + b.drop_last());
    assert((a + b).last() == b.last());
    if b.len() > 1 {
        lemma_join_append(a, b.drop_last(), sep);
        assert(join(a, sep) + sep + join(b.drop_last(), sep) + sep + b.last() == join(a, sep) + sep
            + (join(b.drop_last(), sep) + sep + b.last()));
    } else {
        assert(a + b.drop_last() == a);
    }
}

proof fn lemma_chunks_from_rejoin(ls: Seq<Seq<char>>, start: int, idx: int, lpc: int, maxc: int)
    requires
        0 <= start < ls.len(),
        lpc >= 1,
        forall|k: int| 0 <= k < ls.len() ==> (#[trigger] ls[k]).len() <= maxc,
    ensures
        chunks_from(ls, start, idx, lpc, maxc, 0).len() > 0,
        join(chunk_texts(chunks_from(ls, start, idx, lpc, maxc, 0)), seq!['\n']) == join(
            ls.subrange(start, ls.len() as int),
            seq!['\n'],
        ),
    decreases ls.len() - start,
{
    let n = ls.len() as int;
    let nl = seq!['\n'];
    let end = if start + lpc < n {
        start + lpc
    } else {
        n
    };
    lemma_scan_shape(ls, start, start, end, 0, maxc);
    assert(ls[start].len() <= maxc);
    let le = scan(ls, start, start, end, 0, maxc)->Stop_0;
    let c = ChunkView {
        chunk_index: idx,
        start_line: start + 1,
        end_line: le,
        text: join(ls.subrange(start, le), nl),
    };
    if le == n {
        assert(chunks_from(ls, start, idx, lpc, maxc, 0) == seq![c]);
        assert(chunk_texts(seq![c]) == seq![c.text]);
    } else {
        let rest = chunks_from(ls, le, idx + 1, lpc, maxc, 0);
        lemma_chunks_from_rejoin(ls, le, idx + 1, lpc, maxc);
        assert(chunks_from(ls, start, idx, lpc, maxc, 0) == seq![c] + rest);
        assert(chunk_texts(seq![c] + rest) == seq![c.text] + chunk_texts(rest));
        lemma_join_append(seq![c.text], chunk_texts(rest), nl);
        lemma_join_append(ls.subrange(start, le), ls.subrange(le, n), nl);
        assert(ls.subrange(start, le) + ls.subrange(le, n) == ls.subrange(start, n));
    }
}

/// Without overlap, and when no line of `content` is longer than the
/// character budget, the chunks cover the lines exactly once and in order:
/// their texts joined by `\n` are the lines of `content` joined by `\n`.
pub proof fn lemma_chunks_partition_lines(content: Seq<char>, chunk_lines: int, max_chars: int)
    requires
        forall|k: int|
            0 <= k < lines(content).len() ==> (#[trigger] lines(content)[k]).len() <= at_least_one(
                max_chars,
            ),
    ensures
        join(chunk_texts(chunk_plan(content, chunk_lines, max_chars, 0)), seq!['\n']) == join(
            lines(content),
            seq!['\n'],
        ),
{
    let ls = lines(content);
    let lpc = at_least_one(chunk_lines);
    assert(effective_overlap(0, lpc) == 0);
    if ls.len() > 0 {
        lemma_chunks_from_rejoin(ls, 0, 0, lpc, at_least_one(max_chars));
        assert(ls.subrange(0, ls.len() as int) == ls);
    } else {
        assert(chunk_plan(content, chunk_lines, max_chars, 0) == Seq::<ChunkView>::empty());
        assert(chunk_texts(Seq::<ChunkView>::empty()) == Seq::<Seq<char>>::empty());
    }
}

/// The scan of a chunk cuts a line only when that line opens the chunk, and
/// a chunk that starts before `end` takes at least its first line.
proof fn lemma_scan_shape(ls: Seq<Seq<char>>, start: int, le: int, end: int, used: int, maxc: int)
    requires
        0 <= start <= le,
        end <= ls.len(),
    ensures
        scan(ls, start, le, end, used, maxc) matches ScanEnd::Split(x) ==> x == start && le == start
            && ls[start].len() > maxc,
        scan(ls, start, le, end, used, maxc) matches ScanEnd::Stop(x) ==> le <= x && (le < end ==> x
            <= end) && (le == start && le < end ==> x > start),
    decreases end - le,
{
    if le < end {
        let cost = line_cost(ls, start, le);
        if !(le == start && ls[le].len() > maxc) && !(le > start && used + cost > maxc) {
            lemma_scan_shape(ls, start, le + 1, end, used + cost, maxc);
        }
    }
}

proof fn lemma_chunks_from_cover(
    ls: Seq<Seq<char>>,
    start: int,
    idx: int,
    lpc: int,
    maxc: int,
    ov: int,
    k: int,
)
    requires
        0 <= start <= k < ls.len(),
        lpc >= 1,
        0 <= ov < lpc,
        maxc >= 1,
    ensures
        exists|i: int|
            0 <= i < chunks_from(ls, start, idx, lpc, maxc, ov).len() && (#[trigger] chunks_from(
                ls,
                start,
                idx,
                lpc,
                maxc,
                ov,
            )[i]).start_line <= k + 1 <= chunks_from(ls, start, idx, lpc, maxc, ov)[i].end_line,
    decreases ls.len() - start,
{
    let n = ls.len() as int;
    let cf = chunks_from(ls, start, idx, lpc, maxc, ov);
    let end = if start + lpc < n {
        start + lpc
    } else {
        n
    };
    lemma_scan_shape(ls, start, start, end, 0, maxc);
    match scan(ls, start, start, end, 0, maxc) {
        ScanEnd::Split(le) => {
            let fr = fragments(ls[le], maxc);
            lemma_fragments_rebuild(ls[le], maxc);
            if fr.len() == 0 {
                assert(concat_all(fr) == Seq::<char>::empty());
            }
            let head = fragment_chunks(fr, idx, start + 1);
            let rest = chunks_from(ls, start + 1, idx + fr.len(), lpc, maxc, ov);
            assert(cf == head + rest);
            if k == start {
                assert(cf[0] == head[0]);
            } else {
                lemma_chunks_from_cover(ls, start + 1, idx + fr.len(), lpc, maxc, ov, k);
                let j = choose|j: int|
                    0 <= j < rest.len() && (#[trigger] rest[j]).start_line <= k + 1 <= rest[j].end_line;
                assert(cf[head.len() + j] == rest[j]);
            }
        },
        ScanEnd::Stop(le) => {
            let c = ChunkView {
                chunk_index: idx,
                start_line: start + 1,
                end_line: le,
                text: join(ls.subrange(start, le), seq!['\n']),
            };
            if k < le || le == n {
                assert(cf[0] == c);
            } else {
                let next = if le - start > ov {
                    le - ov
                } else {
                    le
                };
                let rest = chunks_from(ls, next, idx + 1, lpc, maxc, ov);
                assert(cf == seq![c] + rest);
                lemma_chunks_from_cover(ls, next, idx + 1, lpc, maxc, ov, k);
                let j = choose|j: int|
                    0 <= j < rest.len() && (#[trigger] rest[j]).start_line <= k + 1 <= rest[j].end_line;
                assert(cf[1 + j] == rest[j]);
            }
        },
    }
}

/// Every line of `content` lies in some chunk: for each line (counted from 1)
/// there is a chunk whose line range holds it.
pub proof fn lemma_chunks_cover_lines(
    content: Seq<char>,
    chunk_lines: int,
    max_chars: int,
    overlap: int,
    line: int,
)
    requires
        overlap >= 0,
        1 <= line <= lines(content).len(),
    ensures
        exists|i: int|
            0 <= i < chunk_plan(content, chunk_lines, max_chars, overlap).len() && (
            #[trigger] chunk_plan(content, chunk_lines, max_chars, overlap)[i]).start_line <= line
                <= chunk_plan(content, chunk_lines, max_chars, overlap)[i].end_line,
{
    let lpc = at_least_one(chunk_lines);
    let ov = effective_overlap(overlap, lpc);
    let cp = chunk_plan(content, chunk_lines, max_chars, overlap);
    assert(cp == chunks_from(lines(content), 0, 0, lpc, at_least_one(max_chars), ov));
    lemma_chunks_from_cover(lines(content), 0, 0, lpc, at_least_one(max_chars), ov, line - 1);
    let i = choose|i: int|
        0 <= i < cp.len() && (#[trigger] cp[i]).start_line <= line <= cp[i].end_line;
    assert(cp[i].start_line <= line <= cp[i].end_line);
}

// ---------------------------------------------------------------------------
// Previews
// ---------------------------------------------------------------------------

/// The one-line preview of `text`: its words joined by single spaces, cut to
/// `max_chars` characters with `…` as the last one when it is longer.
pub open spec fn preview_of(text: Seq<char>, max_chars: int) -> Seq<char> {
    let normalized = join(words(text), seq![' ']);
    if normalized.len() <= max_chars {
        normalized
    } else {
        let keep = if max_chars >= 1 {
            max_chars - 1
        } else {
            0
        };
        normalized.take(keep).push('…')
    }
}

/// A one-line preview of `text` of at most `max_chars` characters (at least
/// the ellipsis when there is any text).
pub fn preview(text: &str, max_chars: usize) -> (r: String)
    ensures
        r@ == preview_of(text@, max_chars as int),
        max_chars >= 1 ==> r@.len() <= max_chars,
{
    let chars = to_chars(text);
    let words = split_words(chars.as_slice());
    let space: Vec<char> = vec![' '];
    assert(space@ == seq![' ']);
    let normalized = join_chars(words.as_slice(), space.as_slice());
    if normalized.len() <= max_chars {
        from_chars(normalized.as_slice())
    } else {
        let keep = if max_chars >= 1 {
            max_chars - 1
        } else {
            0
        };
        let mut cut = copy_range(normalized.as_slice(), 0, keep);
        assert(normalized@.subrange(0, keep as int) == normalized@.take(keep as int));
        cut.push('…');
        from_chars(cut.as_slice())
    }
}

/// A preview is its own preview: previewing it again with the same limit
/// changes nothing.
pub proof fn lemma_preview_idempotent(text: Seq<char>, max_chars: int)
    ensures
        preview_of(preview_of(text, max_chars), max_chars) == preview_of(text, max_chars),
{
    let sp = seq![' '];
    let normalized = join(words(text), sp);
    lemma_words_are_words(text);
    lemma_join_words_single_spaced(words(text));
    if normalized.len() <= max_chars {
        lemma_single_spaced_rejoin(normalized);
    } else {
        let keep = if max_chars >= 1 {
            max_chars - 1
        } else {
            0
        };
        let cut = normalized.take(keep);
        let r = cut.push('…');
        assert(!is_ws('…'));
        assert(single_spaced(r)) by {
            assert forall|i: int| 0 <= i < r.len() && is_ws(#[trigger] r[i]) implies r[i] == ' ' by {
                if i < keep {
                    assert(r[i] == normalized[i]);
                }
            }
            if keep > 0 {
                assert(r[0] == normalized[0]);
            }
            assert forall|i: int| 0 <= i < r.len() - 1 && #[trigger] r[i] == ' ' implies r[i + 1]
                != ' ' by {
                assert(r[i] == normalized[i]);
                if i + 1 < keep {
                    assert(r[i + 1] == normalized[i + 1]);
                }
            }
        }
        assert(r.last() == '…');
        lemma_single_spaced_rejoin(r);
        if max_chars < 1 {
            assert(r.take(0).push('…') == r);
        }
    }
}

// ---------------------------------------------------------------------------
// Content hashing
// ---------------------------------------------------------------------------

/// The SHA-256 digest of `data`.
pub uninterp spec fn sha256_digest_of(data: Seq<u8>) -> Seq<u8>;

/// Hashes `data` with SHA-256.
///
/// Calls `<sha2::Sha256 as Digest>::digest`. The contract claims that the
/// result is the digest of `data` (named, not spelled out) and that it has the
/// 32 bytes of SHA-256's output size.
#[verifier::external_body]
fn sha256_digest(data: &[u8]) -> (d: Vec<u8>)
    ensures
        d@ == sha256_digest_of(data@),
        d@.len() == 32,
{
    Sha256::digest(data).to_vec()
}

/// The lowercase hexadecimal digit for a value below 16.
pub open spec fn hex_digit(n: int) -> char {
    if n < 10 {
        ('0' as int + n) as char
    } else {
        ('a' as int + n - 10) as char
    }
}

/// Each byte of `bytes` as two lowercase hexadecimal digits, high digit first.
pub open spec fn hex_lower(bytes: Seq<u8>) -> Seq<char>
    decreases bytes.len(),
{
    if bytes.len() == 0 {
        Seq::empty()
    } else {
        hex_lower(bytes.drop_last()) + seq![
            hex_digit(bytes.last() as int / 16),
            hex_digit(bytes.last() as int % 16),
        ]
    }
}

fn hex_digit_exec(n: u8) -> (c: char)
    requires
        n < 16,
    ensures
        c == hex_digit(n as int),
{
    if n < 10 {
        (48u8 + n) as char
    } else {
        (97u8 + n - 10) as char
    }
}

/// Each byte of `bytes` as two lowercase hexadecimal digits.
pub fn to_hex_lower(bytes: &[u8]) -> (r: Vec<char>)
    ensures
        r@ == hex_lower(bytes@),
        r@.len() == 2 * bytes@.len(),
{
    let mut r: Vec<char> = Vec::new();
    let mut i: usize = 0;
    while i < bytes.len()
        invariant
            i <= bytes.len(),
            r@ == hex_lower(bytes@.take(i as int)),
            r@.len() == 2 * i,
        decreases bytes.len() - i,
    {
        assert(bytes@.take(i + 1).drop_last() == bytes@.take(i as int));
        assert(bytes@.take(i + 1).last() == bytes@[i as int]);
        let b = bytes[i];
        r.push(hex_digit_exec(b / 16));
        r.push(hex_digit_exec(b % 16));
        i = i + 1;
    }
    assert(bytes@.take(bytes.len() as int) == bytes@);
    r
}

/// The SHA-256 digest of `bytes` as 64 lowercase hexadecimal digits.
pub fn sha256_hex(bytes: &[u8]) -> (r: String)
    ensures
        r@ == hex_lower(sha256_digest_of(bytes@)),
        r@.len() == 64,
{
    let digest = sha256_digest(bytes);
    let hex = to_hex_lower(digest.as_slice());
    from_chars(hex.as_slice())
}

} // verus!
