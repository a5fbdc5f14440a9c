//! Mathematical model of sentence-based text chunking.
//!
//! Chunks are built greedily from the sentences of a text: sentences are
//! appended to a running buffer, and when the next sentence would push the
//! buffer past the target size (and the buffer is already large enough),
//! the buffer is emitted as a chunk and restarted from the trailing
//! sentences that fit in the overlap budget. A final buffer too small to be
//! a chunk of its own is joined to the last chunk. Each chunk is a run of
//! consecutive sentences, and its offsets are where the run's first
//! sentence starts in the text and where its last one ends.

use vstd::prelude::*;
use crate::strutil::{byte_len, lemma_byte_len_concat, lemma_byte_len_zero};

verus! {

/// Abstract value of a chunk: its text and its byte offsets and index.
pub struct ChunkView {
    pub text: Seq<char>,
    pub start_pos: nat,
    pub end_pos: nat,
    pub index: nat,
}

/// Chunking parameters, in bytes.
pub struct ChunkParams {
    pub chunk_size: nat,
    pub overlap_size: nat,
    pub min_chunk_size: nat,
}

/// Concatenation of a sequence of strings.
pub open spec fn concat(parts: Seq<Seq<char>>) -> Seq<char>
    decreases parts.len(),
{
    if parts.len() == 0 {
        Seq::empty()
    } else {
        concat(parts.drop_last()) + parts.last()
    }
}

/// The longest run of trailing sentences whose total byte length fits in
/// `budget`, taken from the end and stopping at the first that does not fit.
pub open spec fn overlap_suffix(buf: Seq<Seq<char>>, budget: nat) -> Seq<Seq<char>>
    decreases buf.len(),
{
    if buf.len() == 0 {
        Seq::empty()
    } else if byte_len(buf.last()) > budget {
        Seq::empty()
    } else {
        overlap_suffix(buf.drop_last(), (budget - byte_len(buf.last())) as nat).push(buf.last())
    }
}

/// A chunk as a run of sentences: its text and the range `first..end` of
/// the sentences it is made of.
pub struct RunView {
    pub text: Seq<char>,
    pub first: nat,
    pub end: nat,
    pub index: nat,
}

/// State of the greedy scan: emitted runs, sentences of the chunk being
/// built, sentences consumed so far, the index of the buffer's first
/// sentence, and how many of the buffer's last sentences are in no run.
pub struct ChunkState {
    pub chunks: Seq<RunView>,
    pub buffer: Seq<Seq<char>>,
    pub count: nat,
    pub first: nat,
    pub fresh: nat,
}

/// Whether the buffer is emitted before `sentence` is added.
pub open spec fn flush_due(p: ChunkParams, buffer: Seq<Seq<char>>, sentence: Seq<char>) -> bool {
    let cur = concat(buffer);
    &&& cur.len() > 0
    &&& byte_len(cur) + byte_len(sentence) > p.chunk_size
    &&& byte_len(cur) >= p.min_chunk_size
}

/// One step of the scan.
pub open spec fn chunk_step(p: ChunkParams, st: ChunkState, sentence: Seq<char>) -> ChunkState {
    let cur = concat(st.buffer);
    if flush_due(p, st.buffer, sentence) {
        let o = overlap_suffix(st.buffer, p.overlap_size);
        ChunkState {
            chunks: st.chunks.push(RunView { text: cur, first: st.first, end: st.count, index: st.chunks.len() }),
            buffer: o.push(sentence),
            count: st.count + 1,
            first: (st.count - o.len()) as nat,
            fresh: 1,
        }
    } else {
        ChunkState {
            chunks: st.chunks,
            buffer: st.buffer.push(sentence),
            count: st.count + 1,
            first: st.first,
            fresh: st.fresh + 1,
        }
    }
}

/// The scan over all sentences.
pub open spec fn chunk_scan(p: ChunkParams, sentences: Seq<Seq<char>>) -> ChunkState
    decreases sentences.len(),
{
    if sentences.len() == 0 {
        ChunkState { chunks: Seq::empty(), buffer: Seq::empty(), count: 0, first: 0, fresh: 0 }
    } else {
        chunk_step(p, chunk_scan(p, sentences.drop_last()), sentences.last())
    }
}

/// Ends the scan: a non-empty last buffer becomes a chunk when it is large
/// enough, and is otherwise joined (its sentences in no chunk yet) to the
/// last chunk.
pub open spec fn chunk_finish(p: ChunkParams, st: ChunkState) -> Seq<RunView> {
    let cur = concat(st.buffer);
    if cur.len() == 0 {
        st.chunks
    } else if byte_len(cur) >= p.min_chunk_size {
        st.chunks.push(RunView { text: cur, first: st.first, end: st.count, index: st.chunks.len() })
    } else if st.chunks.len() > 0 {
        let last = st.chunks.last();
        let tail = concat(st.buffer.subrange(st.buffer.len() - st.fresh, st.buffer.len() as int));
        st.chunks.drop_last().push(RunView { text: last.text + tail, first: last.first, end: st.count, index: last.index })
    } else {
        st.chunks
    }
}

/// The runs of sentences that the scan makes chunks of.
pub open spec fn chunk_runs(p: ChunkParams, sentences: Seq<Seq<char>>) -> Seq<RunView> {
    chunk_finish(p, chunk_scan(p, sentences))
}

/// A run as a chunk: its offsets are where its first sentence starts and
/// where its last sentence ends, given where each sentence starts.
pub open spec fn run_view(sentences: Seq<Seq<char>>, offsets: Seq<nat>, r: RunView) -> ChunkView {
    ChunkView {
        text: r.text,
        start_pos: offsets[r.first as int],
        end_pos: offsets[r.end - 1] + byte_len(sentences[r.end - 1]),
        index: r.index,
    }
}

/// The chunks of `text`, given its sentences and the byte offset at which
/// each starts: none for an empty text, the whole text as one chunk when
/// the scan yields nothing, else the scan's runs.
pub open spec fn chunk_spec(p: ChunkParams, text: Seq<char>, sentences: Seq<Seq<char>>, offsets: Seq<nat>) -> Seq<ChunkView> {
    if text.len() == 0 {
        Seq::empty()
    } else {
        let runs = chunk_runs(p, sentences);
        if runs.len() == 0 {
            seq![ChunkView { text, start_pos: 0, end_pos: byte_len(text), index: 0 }]
        } else {
            runs.map_values(|r: RunView| run_view(sentences, offsets, r))
        }
    }
}

/// `part` stands in `whole` from byte `off` on.
pub open spec fn placed_at(whole: Seq<char>, part: Seq<char>, off: int) -> bool {
    exists|pre: Seq<char>, post: Seq<char>| #[trigger] (pre + part + post) == whole && byte_len(pre) == off
}

/// Sentence `k` starts at byte `offsets[k]` of `text`, and each sentence
/// ends at or before the start of any later one.
pub open spec fn offsets_ok(text: Seq<char>, sentences: Seq<Seq<char>>, offsets: Seq<nat>) -> bool {
    &&& offsets.len() == sentences.len()
    &&& forall|k: int| 0 <= k < sentences.len() ==> placed_at(text, #[trigger] sentences[k], offsets[k] as int)
    &&& forall|i: int, j: int| 0 <= i < j < sentences.len() ==>
        #[trigger] offsets[i] + byte_len(sentences[i]) <= #[trigger] offsets[j]
}

/// Concatenation distributes over sequence append.
pub proof fn lemma_concat_append(a: Seq<Seq<char>>, b: Seq<Seq<char>>)
    ensures
        concat(a + b) == concat(a) + concat(b),
    decreases b.len(),
{
    if b.len() == 0 {
        assert(a + b =~= a);
        assert(concat(a) + concat(b) =~= concat(a));
    } else {
        assert((a + b).drop_last() =~= a + b.drop_last());
        assert((a + b).last() == b.last());
        lemma_concat_append(a, b.drop_last());
        assert(concat(a + b) =~= concat(a) + concat(b));
    }
}

/// The overlap is a suffix of the buffer and fits in the budget.
pub proof fn lemma_overlap_suffix(buf: Seq<Seq<char>>, budget: nat)
    ensures
        overlap_suffix(buf, budget).len() <= buf.len(),
        overlap_suffix(buf, budget) =~= buf.subrange(
            buf.len() - overlap_suffix(buf, budget).len(),
            buf.len() as int,
        ),
        byte_len(concat(overlap_suffix(buf, budget))) <= budget,
    decreases buf.len(),
{
    if buf.len() > 0 && byte_len(buf.last()) <= budget {
        let rest = (budget - byte_len(buf.last())) as nat;
        lemma_overlap_suffix(buf.drop_last(), rest);
        let o = overlap_suffix(buf.drop_last(), rest);
        assert(overlap_suffix(buf, budget).drop_last() =~= o);
        lemma_byte_len_concat(concat(o), buf.last());
    }
}

/// Overlap computed from the back: after the trailing sentences
/// `buf[j..]` all fit, the overlap is the overlap of `buf[..j]` with the
/// remaining budget, followed by `buf[j..]`.
pub proof fn lemma_overlap_split(buf: Seq<Seq<char>>, budget: nat, j: int)
    requires
        0 <= j <= buf.len(),
        byte_len(concat(buf.subrange(j, buf.len() as int))) <= budget,
    ensures
        overlap_suffix(buf, budget) =~= overlap_suffix(
            buf.subrange(0, j),
            (budget - byte_len(concat(buf.subrange(j, buf.len() as int)))) as nat,
        ) + buf.subrange(j, buf.len() as int),
    decreases buf.len() - j,
{
    if j == buf.len() {
        assert(buf.subrange(0, j) =~= buf);
        assert(buf.subrange(j, buf.len() as int) =~= Seq::<Seq<char>>::empty());
        assert(concat(Seq::<Seq<char>>::empty()) =~= Seq::<char>::empty());
    } else {
        let n = buf.len() as int;
        let tail = buf.subrange(j, n);
        let tail1 = buf.subrange(j + 1, n);
        assert(tail =~= seq![buf[j]] + tail1);
        lemma_concat_append(seq![buf[j]], tail1);
        lemma_concat_single(buf[j]);
        lemma_byte_len_concat(buf[j], concat(tail1));
        lemma_overlap_split(buf, budget, j + 1);
        let pre = buf.subrange(0, j + 1);
        let rem1 = (budget - byte_len(concat(tail1))) as nat;
        assert(pre.drop_last() =~= buf.subrange(0, j));
        assert(pre.last() == buf[j]);
        assert(overlap_suffix(pre, rem1) =~= overlap_suffix(buf.subrange(0, j), (rem1 - byte_len(buf[j])) as nat).push(buf[j]));
    }
}

/// A single string concatenates to itself.
pub proof fn lemma_concat_single(x: Seq<char>)
    ensures
        concat(seq![x]) =~= x,
{
    assert(seq![x].drop_last() =~= Seq::<Seq<char>>::empty());
    assert(concat(Seq::<Seq<char>>::empty()) =~= Seq::<char>::empty());
    assert(Seq::<char>::empty() + x =~= x);
}

/// Splitting a run of sentences in two splits its concatenation.
pub proof fn lemma_concat_split(s: Seq<Seq<char>>, a: int, b: int, c: int)
    requires
        0 <= a <= b <= c <= s.len(),
    ensures
        concat(s.subrange(a, c)) == concat(s.subrange(a, b)) + concat(s.subrange(b, c)),
        byte_len(concat(s.subrange(a, c))) == byte_len(concat(s.subrange(a, b))) + byte_len(concat(s.subrange(b, c))),
{
    assert(s.subrange(a, c) =~= s.subrange(a, b) + s.subrange(b, c));
    lemma_concat_append(s.subrange(a, b), s.subrange(b, c));
    lemma_byte_len_concat(concat(s.subrange(a, b)), concat(s.subrange(b, c)));
}

/// The concatenation of a run of sentences is no longer than the whole.
pub proof fn lemma_run_bytes(s: Seq<Seq<char>>, a: int, b: int)
    requires
        0 <= a <= b <= s.len(),
    ensures
        byte_len(concat(s.subrange(a, b))) <= byte_len(concat(s)),
{
    let n = s.len() as int;
    assert(s =~= s.subrange(0, a) + s.subrange(a, b) + s.subrange(b, n));
    lemma_concat_append(s.subrange(0, a) + s.subrange(a, b), s.subrange(b, n));
    lemma_concat_append(s.subrange(0, a), s.subrange(a, b));
    lemma_byte_len_concat(concat(s.subrange(0, a)) + concat(s.subrange(a, b)), concat(s.subrange(b, n)));
    lemma_byte_len_concat(concat(s.subrange(0, a)), concat(s.subrange(a, b)));
}

/// Run `r` is the `k`-th run: sentences `first..end` of `s`, non-empty
/// and at least `min_chunk_size` bytes.
pub open spec fn run_ok(p: ChunkParams, s: Seq<Seq<char>>, r: RunView, k: int) -> bool {
    &&& r.index == k
    &&& r.first < r.end <= s.len()
    &&& r.text == concat(s.subrange(r.first as int, r.end as int))
    &&& r.text.len() > 0
    &&& byte_len(r.text) >= p.min_chunk_size
}

/// Facts about the scan: consumed sentences, the buffer as the trailing
/// sentences from `first`, the sentences in no run, and the runs emitted,
/// whose first sentences never go down.
#[verifier::rlimit(40)]
pub proof fn lemma_scan(p: ChunkParams, s: Seq<Seq<char>>)
    ensures
        chunk_scan(p, s).count == s.len(),
        chunk_scan(p, s).buffer.len() <= s.len(),
        chunk_scan(p, s).first == s.len() - chunk_scan(p, s).buffer.len(),
        chunk_scan(p, s).buffer =~= s.subrange(chunk_scan(p, s).first as int, s.len() as int),
        chunk_scan(p, s).fresh <= chunk_scan(p, s).buffer.len(),
        chunk_scan(p, s).chunks.len() == 0 ==> chunk_scan(p, s).fresh == s.len(),
        chunk_scan(p, s).chunks.len() > 0 ==> chunk_scan(p, s).chunks.last().end == s.len() - chunk_scan(p, s).fresh,
        chunk_scan(p, s).chunks.len() > 0 ==> chunk_scan(p, s).chunks.last().first <= chunk_scan(p, s).first,
        forall|k: int| 0 <= k < chunk_scan(p, s).chunks.len() ==> run_ok(p, s, #[trigger] chunk_scan(p, s).chunks[k], k),
        forall|j: int, k: int| 0 <= j <= k < chunk_scan(p, s).chunks.len() ==>
            #[trigger] chunk_scan(p, s).chunks[j].first <= #[trigger] chunk_scan(p, s).chunks[k].first,
    decreases s.len(),
{
    if s.len() == 0 {
        assert(s.subrange(0, 0) =~= s);
    } else {
        let prev = s.drop_last();
        lemma_scan(p, prev);
        let st = chunk_scan(p, prev);
        let x = s.last();
        let n = prev.len() as int;
        assert(s =~= prev.push(x));
        let st2 = chunk_scan(p, s);
        assert forall|k: int| 0 <= k < st.chunks.len() implies run_ok(p, s, #[trigger] st.chunks[k], k) by {
            assert(run_ok(p, prev, st.chunks[k], k));
            assert(s.subrange(st.chunks[k].first as int, st.chunks[k].end as int)
                =~= prev.subrange(st.chunks[k].first as int, st.chunks[k].end as int));
        }
        if flush_due(p, st.buffer, x) {
            lemma_overlap_suffix(st.buffer, p.overlap_size);
            let o = overlap_suffix(st.buffer, p.overlap_size);
            let cur = concat(st.buffer);
            let c = RunView { text: cur, first: st.first, end: n as nat, index: st.chunks.len() };
            lemma_byte_len_zero(cur);
            assert(s.subrange(st.first as int, n) =~= st.buffer);
            assert(run_ok(p, s, c, st.chunks.len() as int));
            assert(o =~= prev.subrange(n - o.len(), n));
            assert(o.push(x) =~= s.subrange(n - o.len(), s.len() as int));
            assert forall|k: int| 0 <= k < st2.chunks.len() implies run_ok(p, s, #[trigger] st2.chunks[k], k) by {
                if k < st.chunks.len() {
                    assert(st2.chunks[k] == st.chunks[k]);
                } else {
                    assert(st2.chunks[k] == c);
                }
            }
            assert forall|j: int, k: int| 0 <= j <= k < st2.chunks.len() implies
                #[trigger] st2.chunks[j].first <= #[trigger] st2.chunks[k].first by {
                if k == st.chunks.len() {
                    if j < k {
                        assert(st2.chunks[j] == st.chunks[j]);
                        assert(st.chunks[j].first <= st.chunks[st.chunks.len() - 1].first);
                    }
                } else {
                    assert(st2.chunks[j] == st.chunks[j] && st2.chunks[k] == st.chunks[k]);
                }
            }
        } else {
            assert(st.buffer.push(x) =~= s.subrange(st.first as int, s.len() as int));
        }
    }
}

/// Facts about the runs: each is the `k`-th run of whole sentences, and
/// their first sentences never go down.
pub proof fn lemma_runs(p: ChunkParams, s: Seq<Seq<char>>)
    ensures
        forall|k: int| 0 <= k < chunk_runs(p, s).len() ==> run_ok(p, s, #[trigger] chunk_runs(p, s)[k], k),
        forall|j: int, k: int| 0 <= j <= k < chunk_runs(p, s).len() ==>
            #[trigger] chunk_runs(p, s)[j].first <= #[trigger] chunk_runs(p, s)[k].first,
        chunk_runs(p, s).len() == 0 ==> concat(s).len() == 0 || byte_len(concat(s)) < p.min_chunk_size,
{
    let st = chunk_scan(p, s);
    lemma_scan(p, s);
    let fin = chunk_runs(p, s);
    let n = s.len() as int;
    let m = st.chunks.len();
    let cur = concat(st.buffer);
    lemma_byte_len_zero(cur);
    if cur.len() > 0 && byte_len(cur) >= p.min_chunk_size {
        let c = RunView { text: cur, first: st.first, end: st.count, index: m };
        assert(s.subrange(st.first as int, n) =~= st.buffer);
        assert(fin[m as int] == c);
        assert(run_ok(p, s, c, m as int));
    } else if cur.len() > 0 && m > 0 {
        let last = st.chunks.last();
        let f = n - st.fresh;
        assert(run_ok(p, s, st.chunks[m - 1], m - 1));
        assert(st.buffer.subrange(st.buffer.len() - st.fresh, st.buffer.len() as int) =~= s.subrange(f, n));
        lemma_concat_split(s, last.first as int, f, n);
        lemma_byte_len_concat(last.text, concat(s.subrange(f, n)));
        lemma_byte_len_zero(last.text);
    }
    assert forall|k: int| 0 <= k < fin.len() implies run_ok(p, s, #[trigger] fin[k], k) by {
        if k < m && !(k == m - 1 && cur.len() > 0 && byte_len(cur) < p.min_chunk_size) {
            assert(fin[k] == st.chunks[k]);
        }
    }
    assert forall|j: int, k: int| 0 <= j <= k < fin.len() implies
        #[trigger] fin[j].first <= #[trigger] fin[k].first by {
        if j < m && k < m && fin[j] == st.chunks[j] && fin[k] == st.chunks[k] {
        } else if m > 0 && j < m {
            assert(st.chunks[j].first <= st.chunks[m - 1].first);
            if j < k {
                assert(fin[j] == st.chunks[j]);
            }
        }
    }
    if fin.len() == 0 {
        assert(m == 0);
        assert(st.fresh == n);
        assert(st.buffer =~= s.subrange(0, n));
        assert(s.subrange(0, n) =~= s);
    }
}

/// Laws of chunking, for sentences that start at the given offsets of the
/// text and are not empty. An empty text has no chunks and any other text
/// has at least one. The `k`-th chunk has index `k`, is non-empty, and
/// `start_pos < end_pos <= ` the text's bytes; chunk starts never go down.
/// Either the result is the whole text as one chunk, or every chunk is a
/// run of consecutive sentences (no sentence is ever split) of at least
/// `min_chunk_size` bytes, whose first sentence starts at `start_pos` in
/// the text and whose last one ends at `end_pos`.
pub proof fn chunking_laws(p: ChunkParams, text: Seq<char>, sentences: Seq<Seq<char>>, offsets: Seq<nat>)
    requires
        offsets_ok(text, sentences, offsets),
        forall|k: int| 0 <= k < sentences.len() ==> (#[trigger] sentences[k]).len() > 0,
    ensures
        (chunk_spec(p, text, sentences, offsets).len() == 0) <==> (text.len() == 0),
        forall|k: int| 0 <= k < chunk_spec(p, text, sentences, offsets).len() ==> chunk_basic(
            text, #[trigger] chunk_spec(p, text, sentences, offsets)[k], k),
        forall|j: int, k: int| 0 <= j <= k < chunk_spec(p, text, sentences, offsets).len() ==>
            #[trigger] chunk_spec(p, text, sentences, offsets)[j].start_pos
                <= #[trigger] chunk_spec(p, text, sentences, offsets)[k].start_pos,
        chunk_spec(p, text, sentences, offsets) == seq![
            ChunkView { text, start_pos: 0, end_pos: byte_len(text), index: 0 },
        ] || forall|k: int| 0 <= k < chunk_spec(p, text, sentences, offsets).len() ==> chunk_of_sentences(
            p, text, sentences, offsets, #[trigger] chunk_spec(p, text, sentences, offsets)[k]),
{
    let r = chunk_spec(p, text, sentences, offsets);
    let runs = chunk_runs(p, sentences);
    lemma_runs(p, sentences);
    lemma_byte_len_zero(text);
    if text.len() > 0 && runs.len() > 0 {
        assert forall|k: int| 0 <= k < r.len() implies chunk_basic(text, #[trigger] r[k], k)
            && chunk_of_sentences(p, text, sentences, offsets, r[k]) by {
            let rk = runs[k];
            assert(run_ok(p, sentences, rk, k));
            assert(r[k] == run_view(sentences, offsets, rk));
            let a = rk.first as int;
            let b = rk.end as int;
            let (pre, post) = choose|pre: Seq<char>, post: Seq<char>|
                #[trigger] (pre + sentences[b - 1] + post) == text && byte_len(pre) == offsets[b - 1];
            lemma_byte_len_concat(pre + sentences[b - 1], post);
            lemma_byte_len_concat(pre, sentences[b - 1]);
            assert(sentences[b - 1].len() > 0);
            lemma_byte_len_zero(sentences[b - 1]);
            if a < b - 1 {
                assert(offsets[a] + byte_len(sentences[a]) <= offsets[b - 1]);
            }
            lemma_byte_len_zero(rk.text);
            let (pre0, post0) = choose|pre: Seq<char>, post: Seq<char>|
                #[trigger] (pre + sentences[a] + post) == text && byte_len(pre) == offsets[a];
        }
        assert forall|j: int, k: int| 0 <= j <= k < r.len() implies
            #[trigger] r[j].start_pos <= #[trigger] r[k].start_pos by {
            assert(runs[j].first <= runs[k].first);
            let a = runs[j].first as int;
            let b = runs[k].first as int;
            assert(run_ok(p, sentences, runs[j], j) && run_ok(p, sentences, runs[k], k));
            if a < b {
                assert(offsets[a] + byte_len(sentences[a]) <= offsets[b]);
            }
        }
    } else if text.len() > 0 {
        let c = r[0];
        assert(c.text == text);
    }
}

/// The `k`-th chunk of `text` has index `k`, is non-empty, and its offsets
/// lie in the text in order.
pub open spec fn chunk_basic(text: Seq<char>, c: ChunkView, k: int) -> bool {
    &&& c.index == k
    &&& c.text.len() > 0
    &&& c.start_pos < c.end_pos
    &&& c.end_pos <= byte_len(text)
}

/// Chunk `c` is a run of consecutive sentences of at least `min_chunk_size`
/// bytes: the run's first sentence starts at `start_pos` in the text, and
/// its last sentence ends at `end_pos`.
pub open spec fn chunk_of_sentences(p: ChunkParams, text: Seq<char>, sentences: Seq<Seq<char>>, offsets: Seq<nat>, c: ChunkView) -> bool {
    &&& byte_len(c.text) >= p.min_chunk_size
    &&& exists|a: int, b: int| {
        &&& 0 <= a < b <= sentences.len()
        &&& #[trigger] concat(sentences.subrange(a, b)) == c.text
        &&& c.start_pos == offsets[a]
        &&& c.end_pos == offsets[b - 1] + byte_len(sentences[b - 1])
    }
}

} // verus!
