//! Document parsing and sentence-aware text chunking.

use vstd::prelude::*;
use vstd::string::StringExecFns;
use unicode_segmentation::UnicodeSegmentation;
use crate::chunk_spec::{
    ChunkParams, ChunkView, RunView, chunk_basic, chunk_finish, flush_due, chunk_of_sentences, chunk_scan, chunk_spec,
    chunking_laws, concat, lemma_concat_append, offsets_ok, placed_at, run_view,
    lemma_concat_single, lemma_overlap_split, lemma_overlap_suffix, lemma_run_bytes, lemma_scan,
    overlap_suffix,
};
use crate::metrics::str_eq;
use crate::strutil::{
    byte_len, chars_end_with, chars_of, decode_lossy, has_suffix, lemma_byte_len_concat,
    lemma_byte_len_zero, lowercase, str_byte_len, string_byte_len, string_views, to_lowercase,
    utf8_lossy,
};

verus! {

/// Configuration for text chunking (sizes in bytes).
#[derive(Debug, Clone, Copy)]
pub struct ChunkConfig {
    /// Target chunk size (default: 1000)
    pub chunk_size: usize,
    /// Overlap size (default: 200)
    pub overlap_size: usize,
    /// Minimum chunk size (default: 100)
    pub min_chunk_size: usize,
}

impl ChunkConfig {
    /// The configuration as mathematical parameters.
    pub open spec fn params(self) -> ChunkParams {
        ChunkParams {
            chunk_size: self.chunk_size as nat,
            overlap_size: self.overlap_size as nat,
            min_chunk_size: self.min_chunk_size as nat,
        }
    }
}

impl Default for ChunkConfig {
    fn default() -> (c: Self)
        ensures
            c.chunk_size == 1000,
            c.overlap_size == 200,
            c.min_chunk_size == 100,
    {
        ChunkConfig { chunk_size: 1000, overlap_size: 200, min_chunk_size: 100 }
    }
}

/// A text chunk with its byte offsets and index.
#[derive(Debug, Clone)]
pub struct TextChunk {
    /// The chunk text
    pub text: String,
    /// Start position in the parsed text (byte offset)
    pub start_pos: usize,
    /// End position in the parsed text (byte offset)
    pub end_pos: usize,
    /// Chunk index
    pub index: usize,
}

impl View for TextChunk {
    type V = ChunkView;

    open spec fn view(&self) -> ChunkView {
        ChunkView {
            text: self.text@,
            start_pos: self.start_pos as nat,
            end_pos: self.end_pos as nat,
            index: self.index as nat,
        }
    }
}

/// Abstract values of a sequence of chunks.
pub open spec fn chunk_views(v: Seq<TextChunk>) -> Seq<ChunkView> {
    v.map_values(|c: TextChunk| c@)
}

/// Errors raised while parsing documents.
#[derive(Debug, Clone)]
pub enum DocumentError {
    /// The bytes could not be loaded as a PDF; carries the loader's message.
    PdfLoad(String),
    /// The bytes could not be read as a DOCX file; carries the reader's message.
    DocxRead(String),
}

impl DocumentError {
    /// The error's message: `Failed to load PDF: <reason>` or `Failed to
    /// read DOCX: <reason>`.
    pub fn message(&self) -> (m: String)
        ensures
            m@ == match *self {
                DocumentError::PdfLoad(r) => "Failed to load PDF: "@ + r@,
                DocumentError::DocxRead(r) => "Failed to read DOCX: "@ + r@,
            },
    {
        match self {
            DocumentError::PdfLoad(r) => {
                let mut m = "Failed to load PDF: ".to_owned();
                m.append(r.as_str());
                m
            },
            DocumentError::DocxRead(r) => {
                let mut m = "Failed to read DOCX: ".to_owned();
                m.append(r.as_str());
                m
            },
        }
    }
}

/// The pieces into which `UnicodeSegmentation::split_sentence_bounds` cuts a
/// text at its Unicode (UAX #29) sentence boundaries.
pub uninterp spec fn sentence_bounds(text: Seq<char>) -> Seq<Seq<char>>;

/// The sentences that `UnicodeSegmentation::unicode_sentences` yields for a text.
pub uninterp spec fn unicode_sentences(text: Seq<char>) -> Seq<Seq<char>>;

/// Calls `UnicodeSegmentation::split_sentence_bounds` and collects the
/// pieces. The crate documents that their concatenation is the original
/// text; where the boundaries fall is named, not stated.
#[verifier::external_body]
fn split_sentence_pieces(text: &str) -> (r: Vec<String>)
    ensures
        string_views(r@) == sentence_bounds(text@),
        concat(string_views(r@)) == text@,
{
    text.split_sentence_bounds().map(|s| s.to_string()).collect()
}

/// `idx` places the items of `sub` in `whole`, at increasing positions.
pub open spec fn embeds(sub: Seq<Seq<char>>, whole: Seq<Seq<char>>, idx: Seq<int>) -> bool {
    &&& idx.len() == sub.len()
    &&& forall|k: int| 0 <= k < idx.len() ==> 0 <= #[trigger] idx[k] < whole.len() && whole[idx[k]] == sub[k]
    &&& forall|i: int, j: int| 0 <= i < j < idx.len() ==> #[trigger] idx[i] < #[trigger] idx[j]
}

/// Whether the items of `sub` occur in `whole`, in order.
pub open spec fn is_subsequence(sub: Seq<Seq<char>>, whole: Seq<Seq<char>>) -> bool {
    exists|idx: Seq<int>| #[trigger] embeds(sub, whole, idx)
}

/// Calls `UnicodeSegmentation::unicode_sentences` and collects the
/// sentences. The crate documents them as the pieces of
/// `split_sentence_bounds` that contain an alphanumeric character, and
/// builds them by filtering those pieces (`sentence.rs`, `new_unicode_sentences`);
/// so they are, in order, some of the boundary pieces, and none is empty.
/// Which pieces they are is named, not stated.
#[verifier::external_body]
fn split_sentences(text: &str) -> (r: Vec<String>)
    ensures
        string_views(r@) == unicode_sentences(text@),
        is_subsequence(string_views(r@), sentence_bounds(text@)),
        forall|k: int| 0 <= k < r@.len() ==> (#[trigger] r@[k])@.len() > 0,
{
    text.unicode_sentences().map(|s| s.to_string()).collect()
}

/// Where each sentence starts, found by walking the boundary pieces from
/// `base` bytes on: a piece equal to the next sentence is that sentence.
pub open spec fn offsets_from(pieces: Seq<Seq<char>>, sentences: Seq<Seq<char>>, base: nat) -> Seq<nat>
    decreases pieces.len(),
{
    if pieces.len() == 0 || sentences.len() == 0 {
        Seq::empty()
    } else if pieces[0] == sentences[0] {
        seq![base] + offsets_from(pieces.drop_first(), sentences.drop_first(), base + byte_len(pieces[0]))
    } else {
        offsets_from(pieces.drop_first(), sentences, base + byte_len(pieces[0]))
    }
}

/// The byte offset at which each Unicode sentence of a text starts.
pub open spec fn sentence_offsets(text: Seq<char>) -> Seq<nat> {
    offsets_from(sentence_bounds(text), unicode_sentences(text), 0)
}

/// A concatenation of strings is its first string followed by the rest.
proof fn lemma_concat_first(pieces: Seq<Seq<char>>)
    requires
        pieces.len() > 0,
    ensures
        concat(pieces) == pieces[0] + concat(pieces.drop_first()),
{
    assert(pieces =~= seq![pieces[0]] + pieces.drop_first());
    lemma_concat_append(seq![pieces[0]], pieces.drop_first());
    lemma_concat_single(pieces[0]);
}

/// At most one offset is found per sentence.
proof fn lemma_offsets_len(pieces: Seq<Seq<char>>, sentences: Seq<Seq<char>>, base: nat)
    ensures
        offsets_from(pieces, sentences, base).len() <= sentences.len(),
    decreases pieces.len(),
{
    if pieces.len() > 0 && sentences.len() > 0 {
        if pieces[0] == sentences[0] {
            lemma_offsets_len(pieces.drop_first(), sentences.drop_first(), base + byte_len(pieces[0]));
        } else {
            lemma_offsets_len(pieces.drop_first(), sentences, base + byte_len(pieces[0]));
        }
    }
}

/// The `k`-th offset found from `base` places sentence `k` in the
/// concatenated pieces.
proof fn lemma_offset_at(pieces: Seq<Seq<char>>, sentences: Seq<Seq<char>>, base: nat, k: int)
    requires
        0 <= k < offsets_from(pieces, sentences, base).len(),
    ensures
        placed_at(concat(pieces), sentences[k], offsets_from(pieces, sentences, base)[k] - base),
    decreases pieces.len(),
{
    let g = offsets_from(pieces, sentences, base);
    lemma_offsets_len(pieces, sentences, base);
    let p0 = pieces[0];
    let rest = pieces.drop_first();
    let b1 = base + byte_len(p0);
    lemma_concat_first(pieces);
    if p0 == sentences[0] {
        let s1 = sentences.drop_first();
        let g1 = offsets_from(rest, s1, b1);
        assert(g =~= seq![base] + g1);
        if k == 0 {
            let pre = Seq::<char>::empty();
            assert(pre + sentences[0] + concat(rest) =~= concat(pieces));
            lemma_byte_len_zero(pre);
            assert((pre + sentences[k] + concat(rest)) == concat(pieces) && byte_len(pre) == g[k] - base);
        } else {
            lemma_offset_at(rest, s1, b1, k - 1);
            assert(s1[k - 1] == sentences[k]);
            let (pre, post) = choose|pre: Seq<char>, post: Seq<char>|
                #[trigger] (pre + s1[k - 1] + post) == concat(rest) && byte_len(pre) == g1[k - 1] - b1;
            lemma_byte_len_concat(p0, pre);
            assert((p0 + pre) + sentences[k] + post =~= concat(pieces));
            assert(((p0 + pre) + sentences[k] + post) == concat(pieces) && byte_len(p0 + pre) == g[k] - base);
        }
    } else {
        let g1 = offsets_from(rest, sentences, b1);
        assert(g == g1);
        lemma_offset_at(rest, sentences, b1, k);
        let (pre, post) = choose|pre: Seq<char>, post: Seq<char>|
            #[trigger] (pre + sentences[k] + post) == concat(rest) && byte_len(pre) == g1[k] - b1;
        lemma_byte_len_concat(p0, pre);
        assert((p0 + pre) + sentences[k] + post =~= concat(pieces));
        assert(((p0 + pre) + sentences[k] + post) == concat(pieces) && byte_len(p0 + pre) == g[k] - base);
    }
}

/// The offsets found from `base` place each matched sentence in the
/// concatenated pieces, in order.
proof fn lemma_offsets_from(pieces: Seq<Seq<char>>, sentences: Seq<Seq<char>>, base: nat)
    ensures
        offsets_from(pieces, sentences, base).len() <= sentences.len(),
        forall|k: int| 0 <= k < offsets_from(pieces, sentences, base).len() ==> placed_at(
            concat(pieces), sentences[k], #[trigger] offsets_from(pieces, sentences, base)[k] - base),
        forall|i: int, j: int| 0 <= i < j < offsets_from(pieces, sentences, base).len() ==>
            #[trigger] offsets_from(pieces, sentences, base)[i] + byte_len(sentences[i])
                <= #[trigger] offsets_from(pieces, sentences, base)[j],
        forall|k: int| 0 <= k < offsets_from(pieces, sentences, base).len() ==>
            #[trigger] offsets_from(pieces, sentences, base)[k] >= base,
    decreases pieces.len(),
{
    let g = offsets_from(pieces, sentences, base);
    lemma_offsets_len(pieces, sentences, base);
    assert forall|k: int| 0 <= k < offsets_from(pieces, sentences, base).len() implies placed_at(
        concat(pieces), sentences[k], #[trigger] offsets_from(pieces, sentences, base)[k] - base) by {
        lemma_offset_at(pieces, sentences, base, k);
    }
    if !(pieces.len() > 0 && sentences.len() > 0) {
        assert(g =~= Seq::<nat>::empty());
    } else {
        let p0 = pieces[0];
        let rest = pieces.drop_first();
        let b1 = base + byte_len(p0);
        if p0 == sentences[0] {
            let s1 = sentences.drop_first();
            let g1 = offsets_from(rest, s1, b1);
            lemma_offsets_from(rest, s1, b1);
            assert(g =~= seq![base] + g1);
            assert forall|i: int, j: int| 0 <= i < j < g.len() implies
                #[trigger] g[i] + byte_len(sentences[i]) <= #[trigger] g[j] by {
                if i == 0 {
                    assert(g[j] == g1[j - 1]);
                } else {
                    assert(g[i] == g1[i - 1] && g[j] == g1[j - 1] && s1[i - 1] == sentences[i]);
                }
            }
            assert forall|k: int| 0 <= k < g.len() implies #[trigger] g[k] >= base by {
                if k > 0 {
                    assert(g[k] == g1[k - 1]);
                }
            }
        } else {
            lemma_offsets_from(rest, sentences, b1);
            assert(g == offsets_from(rest, sentences, b1));
        }
    }
}

/// When the sentences occur among the pieces in order, every sentence gets
/// an offset.
proof fn lemma_offsets_complete(pieces: Seq<Seq<char>>, sentences: Seq<Seq<char>>, base: nat)
    requires
        is_subsequence(sentences, pieces),
    ensures
        offsets_from(pieces, sentences, base).len() == sentences.len(),
    decreases pieces.len(),
{
    if sentences.len() > 0 {
        let idx = choose|idx: Seq<int>| #[trigger] embeds(sentences, pieces, idx);
        assert(0 <= idx[0] < pieces.len());
        let rest = pieces.drop_first();
        if pieces[0] == sentences[0] {
            let s1 = sentences.drop_first();
            let idx1 = idx.drop_first().map_values(|x: int| x - 1);
            assert forall|k: int| 0 <= k < idx1.len() implies 0 <= #[trigger] idx1[k] < rest.len() && rest[idx1[k]] == s1[k] by {
                assert(idx[0] < idx[k + 1]);
                assert(0 <= idx[k + 1] < pieces.len());
            }
            assert forall|i: int, j: int| 0 <= i < j < idx1.len() implies #[trigger] idx1[i] < #[trigger] idx1[j] by {
                assert(idx[i + 1] < idx[j + 1]);
            }
            assert(embeds(s1, rest, idx1));
            lemma_offsets_complete(rest, s1, base + byte_len(pieces[0]));
        } else {
            let idx1 = idx.map_values(|x: int| x - 1);
            assert(idx[0] != 0);
            assert forall|k: int| 0 <= k < idx1.len() implies 0 <= #[trigger] idx1[k] < rest.len() && rest[idx1[k]] == sentences[k] by {
                if k > 0 {
                    assert(idx[0] < idx[k]);
                }
                assert(0 <= idx[k] < pieces.len());
            }
            assert forall|i: int, j: int| 0 <= i < j < idx1.len() implies #[trigger] idx1[i] < #[trigger] idx1[j] by {
                assert(idx[i] < idx[j]);
            }
            assert(embeds(sentences, rest, idx1));
            lemma_offsets_complete(rest, sentences, base + byte_len(pieces[0]));
        }
    }
}

/// Offsets as mathematical integers.
pub open spec fn usize_views(v: Seq<usize>) -> Seq<nat> {
    v.map_values(|x: usize| x as nat)
}

/// The byte offset at which each sentence starts in the text whose
/// boundary pieces are `pieces`, given that the sentences occur among them.
fn find_offsets(pieces: &[String], sentences: &[String], text_len: usize) -> (r: Vec<usize>)
    requires
        byte_len(concat(string_views(pieces@))) == text_len,
        is_subsequence(string_views(sentences@), string_views(pieces@)),
    ensures
        usize_views(r@) == offsets_from(string_views(pieces@), string_views(sentences@), 0),
        offsets_ok(concat(string_views(pieces@)), string_views(sentences@), usize_views(r@)),
{
    let ghost pv = string_views(pieces@);
    let ghost sv = string_views(sentences@);
    let mut r: Vec<usize> = Vec::new();
    let mut i: usize = 0;
    let mut j: usize = 0;
    let mut pos: usize = 0;
    proof {
        assert(pv.subrange(0, 0) =~= Seq::<Seq<char>>::empty());
        assert(concat(Seq::<Seq<char>>::empty()) =~= Seq::<char>::empty());
        assert(pv.skip(0) =~= pv);
        assert(sv.skip(0) =~= sv);
        assert(usize_views(r@) =~= Seq::<nat>::empty());
        assert(usize_views(r@) + offsets_from(pv.skip(0), sv.skip(0), 0) =~= offsets_from(pv, sv, 0));
    }
    while j < pieces.len() && i < sentences.len()
        invariant
            pv == string_views(pieces@),
            sv == string_views(sentences@),
            byte_len(concat(pv)) == text_len,
            i <= sv.len(),
            j <= pv.len(),
            pos == byte_len(concat(pv.subrange(0, j as int))),
            usize_views(r@) + offsets_from(pv.skip(j as int), sv.skip(i as int), pos as nat) == offsets_from(pv, sv, 0),
        decreases pv.len() - j,
    {
        let ghost before = usize_views(r@);
        let ghost tail = offsets_from(pv.skip(j as int), sv.skip(i as int), pos as nat);
        proof {
            assert(pv.skip(j as int)[0] == pv[j as int]);
            assert(pv.skip(j as int).drop_first() =~= pv.skip(j + 1));
            assert(sv.skip(i as int).drop_first() =~= sv.skip(i + 1));
            assert(sv.skip(i as int)[0] == sv[i as int]);
            assert(pv.subrange(0, j + 1).drop_last() =~= pv.subrange(0, j as int));
            assert(pv.subrange(0, j + 1).last() == pv[j as int]);
            lemma_byte_len_concat(concat(pv.subrange(0, j as int)), pv[j as int]);
            lemma_run_bytes(pv, 0, j + 1);
            assert(pv.subrange(0, pv.len() as int) =~= pv);
        }
        let len = string_byte_len(&pieces[j]);
        if str_eq(pieces[j].as_str(), sentences[i].as_str()) {
            r.push(pos);
            proof {
                assert(usize_views(r@) =~= before.push(pos as nat));
                assert(tail =~= seq![pos as nat] + offsets_from(pv.skip(j + 1), sv.skip(i + 1), (pos + len) as nat));
                assert(usize_views(r@) + offsets_from(pv.skip(j + 1), sv.skip(i + 1), (pos + len) as nat)
                    =~= before + tail);
            }
            i = i + 1;
        } else {
            proof {
                assert(tail == offsets_from(pv.skip(j + 1), sv.skip(i as int), (pos + len) as nat));
            }
        }
        pos = pos + len;
        j = j + 1;
    }
    proof {
        assert(offsets_from(pv.skip(j as int), sv.skip(i as int), pos as nat) =~= Seq::<nat>::empty());
        assert(usize_views(r@) =~= offsets_from(pv, sv, 0));
        lemma_offsets_from(pv, sv, 0);
        lemma_offsets_complete(pv, sv, 0);
        assert forall|k: int| 0 <= k < sv.len() implies placed_at(concat(pv), #[trigger] sv[k], usize_views(r@)[k] as int) by {
            assert(placed_at(concat(pv), sv[k], offsets_from(pv, sv, 0)[k] - 0));
        }
    }
    r
}

/// The chunking laws, for the chunks `v` of `text` made from `sentences`
/// starting at `offsets`: no chunks exactly for an empty text; the `k`-th
/// chunk has index `k`, is non-empty and lies in order within the text;
/// chunk starts never go down; and either the whole text is the one chunk
/// or every chunk is a run of consecutive sentences of at least
/// `min_chunk_size` bytes, from where its first sentence starts to where
/// its last one ends.
pub open spec fn chunk_laws_hold(p: ChunkParams, text: Seq<char>, sentences: Seq<Seq<char>>, offsets: Seq<nat>, v: Seq<TextChunk>) -> bool {
    &&& (v.len() == 0 <==> text.len() == 0)
    &&& forall|k: int| 0 <= k < v.len() ==> chunk_basic(text, #[trigger] v[k]@, k)
    &&& forall|j: int, k: int| 0 <= j <= k < v.len() ==> #[trigger] v[j].start_pos <= #[trigger] v[k].start_pos
    &&& (chunk_views(v) == seq![ChunkView { text, start_pos: 0, end_pos: byte_len(text), index: 0 }]
        || forall|k: int| 0 <= k < v.len() ==> chunk_of_sentences(p, text, sentences, offsets, #[trigger] v[k]@))
}

/// The chunks of a text: those of its Unicode sentences at their offsets.
pub open spec fn chunks_of(p: ChunkParams, text: Seq<char>, v: Seq<TextChunk>) -> bool {
    &&& chunk_views(v) == chunk_spec(p, text, unicode_sentences(text), sentence_offsets(text))
    &&& chunk_laws_hold(p, text, unicode_sentences(text), sentence_offsets(text), v)
}

/// A run of sentences holds no more bytes than the span from where its
/// first sentence starts to where its last one ends.
proof fn lemma_run_span(text: Seq<char>, sentences: Seq<Seq<char>>, offsets: Seq<nat>, a: int, b: int)
    requires
        offsets_ok(text, sentences, offsets),
        0 <= a < b <= sentences.len(),
    ensures
        byte_len(concat(sentences.subrange(a, b))) + offsets[a] <= offsets[b - 1] + byte_len(sentences[b - 1]),
    decreases b - a,
{
    let run = sentences.subrange(a, b);
    assert(run.drop_last() =~= sentences.subrange(a, b - 1));
    assert(run.last() == sentences[b - 1]);
    lemma_byte_len_concat(concat(sentences.subrange(a, b - 1)), sentences[b - 1]);
    if b - 1 > a {
        lemma_run_span(text, sentences, offsets, a, b - 1);
        assert(offsets[b - 2] + byte_len(sentences[b - 2]) <= offsets[b - 1]);
    } else {
        assert(sentences.subrange(a, b - 1) =~= Seq::<Seq<char>>::empty());
        assert(concat(Seq::<Seq<char>>::empty()) =~= Seq::<char>::empty());
    }
}

/// A sentence ends within the text.
proof fn lemma_offset_end(text: Seq<char>, sentences: Seq<Seq<char>>, offsets: Seq<nat>, k: int)
    requires
        offsets_ok(text, sentences, offsets),
        0 <= k < sentences.len(),
    ensures
        offsets[k] + byte_len(sentences[k]) <= byte_len(text),
{
    let (pre, post) = choose|pre: Seq<char>, post: Seq<char>|
        #[trigger] (pre + sentences[k] + post) == text && byte_len(pre) == offsets[k];
    lemma_byte_len_concat(pre + sentences[k], post);
    lemma_byte_len_concat(pre, sentences[k]);
}

/// Text chunker that splits text into overlapping, sentence-aligned segments.
pub struct TextChunker {
    pub config: ChunkConfig,
}

/// Concatenation of a slice of strings.
fn concat_strings(parts: &[String]) -> (r: String)
    ensures
        r@ == concat(string_views(parts@)),
{
    let mut r = String::new();
    let mut i: usize = 0;
    while i < parts.len()
        invariant
            i <= parts@.len(),
            r@ == concat(string_views(parts@.take(i as int))),
        decreases parts@.len() - i,
    {
        r.append(parts[i].as_str());
        proof {
            let t = string_views(parts@.take(i + 1));
            assert(t.drop_last() =~= string_views(parts@.take(i as int)));
            assert(t.last() == parts@[i as int]@);
        }
        i = i + 1;
    }
    assert(parts@.take(parts@.len() as int) =~= parts@);
    r
}

impl TextChunker {
    pub fn new(config: ChunkConfig) -> (c: Self)
        ensures
            c.config == config,
    {
        TextChunker { config }
    }

    pub fn with_defaults() -> (c: Self)
        ensures
            c.config.chunk_size == 1000,
            c.config.overlap_size == 200,
            c.config.min_chunk_size == 100,
    {
        Self::new(ChunkConfig::default())
    }

    /// Chunks text into overlapping segments that never split a sentence.
    ///
    /// The text's Unicode sentences are grouped into chunks of about
    /// `chunk_size` bytes; when a chunk is emitted, the next one starts
    /// with the trailing sentences that fit in `overlap_size`. A chunk's
    /// offsets are where its first sentence starts in the text and where
    /// its last sentence ends.
    pub fn chunk_text(&self, text: &str) -> (r: Result<Vec<TextChunk>, DocumentError>)
        ensures
            offsets_ok(text@, unicode_sentences(text@), sentence_offsets(text@)),
            r matches Ok(v) && chunks_of(self.config.params(), text@, v@),
    {
        let pieces = split_sentence_pieces(text);
        let sentences = split_sentences(text);
        let text_len = str_byte_len(text);
        let offsets = find_offsets(pieces.as_slice(), sentences.as_slice(), text_len);
        Ok(self.chunk_sentences(text, sentences.as_slice(), offsets.as_slice()))
    }

    /// Chunks `text`, given its sentences, in order, and the byte offset at
    /// which each starts.
    pub fn chunk_sentences(&self, text: &str, sentences: &[String], offsets: &[usize]) -> (v: Vec<TextChunk>)
        requires
            offsets_ok(text@, string_views(sentences@), usize_views(offsets@)),
            forall|k: int| 0 <= k < sentences@.len() ==> (#[trigger] sentences@[k])@.len() > 0,
        ensures
            chunk_views(v@) == chunk_spec(self.config.params(), text@, string_views(sentences@), usize_views(offsets@)),
            chunk_laws_hold(self.config.params(), text@, string_views(sentences@), usize_views(offsets@), v@),
    {
        let ghost ss = string_views(sentences@);
        let ghost ov = usize_views(offsets@);
        let ghost p = self.config.params();
        let v = self.chunk_scan_all(text, sentences, offsets);
        proof {
            assert forall|k: int| 0 <= k < ss.len() implies (#[trigger] ss[k]).len() > 0 by {
                assert(ss[k] == sentences@[k]@);
            }
            chunking_laws(p, text@, ss, ov);
            let cv = chunk_views(v@);
            assert(cv.len() == v.len());
            assert forall|k: int| 0 <= k < v.len() implies chunk_basic(text@, #[trigger] v@[k]@, k) by {
                assert(cv[k] == v@[k]@);
            }
            assert forall|j: int, k: int| 0 <= j <= k < v.len() implies #[trigger] v@[j].start_pos <= #[trigger] v@[k].start_pos by {
                assert(cv[j] == v@[j]@ && cv[k] == v@[k]@);
            }
            if cv != seq![ChunkView { text: text@, start_pos: 0, end_pos: byte_len(text@), index: 0 }] {
                assert forall|k: int| 0 <= k < v.len() implies chunk_of_sentences(p, text@, ss, ov, #[trigger] v@[k]@) by {
                    assert(cv[k] == v@[k]@);
                }
            }
        }
        v
    }

    #[verifier::rlimit(60)]
    #[verifier::spinoff_prover]
    fn chunk_scan_all(&self, text: &str, sentences: &[String], offsets: &[usize]) -> (v: Vec<TextChunk>)
        requires
            offsets_ok(text@, string_views(sentences@), usize_views(offsets@)),
        ensures
            chunk_views(v@) == chunk_spec(self.config.params(), text@, string_views(sentences@), usize_views(offsets@)),
    {
        let ghost ss = string_views(sentences@);
        let ghost ov = usize_views(offsets@);
        let ghost p = self.config.params();
        if text.is_empty() {
            let v: Vec<TextChunk> = Vec::new();
            assert(chunk_views(v@) =~= Seq::<ChunkView>::empty());
            return v;
        }
        let text_len = str_byte_len(text);
        let mut chunks: Vec<TextChunk> = Vec::new();
        let mut current_chunk = String::new();
        let mut cur_len: usize = 0;
        let mut first: usize = 0;
        let mut fresh: usize = 0;
        let mut sentence_buffer: Vec<String> = Vec::new();
        let mut i: usize = 0;
        proof {
            assert(ss.take(0) =~= Seq::<Seq<char>>::empty());
            assert(concat(Seq::<Seq<char>>::empty()) =~= Seq::<char>::empty());
            assert(chunk_views(chunks@) =~= Seq::<ChunkView>::empty());
            assert(string_views(sentence_buffer@) =~= Seq::<Seq<char>>::empty());
        }
        while i < sentences.len()
            invariant
                ss == string_views(sentences@),
                ov == usize_views(offsets@),
                p == self.config.params(),
                offsets_ok(text@, ss, ov),
                byte_len(text@) == text_len,
                i <= ss.len(),
                chunk_views(chunks@) == chunk_scan(p, ss.take(i as int)).chunks.map_values(|r: RunView| run_view(ss, ov, r)),
                string_views(sentence_buffer@) == chunk_scan(p, ss.take(i as int)).buffer,
                current_chunk@ == concat(chunk_scan(p, ss.take(i as int)).buffer),
                cur_len == byte_len(current_chunk@),
                first == chunk_scan(p, ss.take(i as int)).first,
                fresh == chunk_scan(p, ss.take(i as int)).fresh,
                fresh <= i,
            decreases ss.len() - i,
        {
            let sentence = &sentences[i];
            let sentence_len = string_byte_len(sentence);
            let ghost prev = ss.take(i as int);
            let ghost st = chunk_scan(p, prev);
            proof {
                assert(ss.take(i + 1).drop_last() =~= prev);
                assert(ss.take(i + 1).last() == sentence@);
                lemma_scan(p, prev);
                lemma_scan(p, ss.take(i + 1));
                lemma_byte_len_zero(current_chunk@);
            }
            proof {
                assert(st.buffer =~= ss.subrange(st.first as int, i as int));
                let run = ss.subrange(first as int, i + 1);
                assert(run.drop_last() =~= ss.subrange(first as int, i as int));
                assert(run.last() == ss[i as int]);
                lemma_run_span(text@, ss, ov, first as int, i + 1);
                lemma_byte_len_concat(current_chunk@, sentence@);
                lemma_offset_end(text@, ss, ov, i as int);
            }
            let ghost flushed = flush_due(p, st.buffer, sentence@);
            if cur_len > 0 && cur_len + sentence_len > self.config.chunk_size
                && cur_len >= self.config.min_chunk_size {
                proof {
                    assert(st.buffer.len() > 0) by {
                        if st.buffer.len() == 0 {
                            assert(st.buffer =~= Seq::<Seq<char>>::empty());
                        }
                    }
                    lemma_offset_end(text@, ss, ov, i - 1);
                }
                let idx = chunks.len();
                let end_pos = offsets[i - 1] + string_byte_len(&sentences[i - 1]);
                let ghost before = chunks@;
                assert(chunk_views(chunks@).len() == chunks@.len());
                assert(idx == st.chunks.len());
                let ghost newrun = RunView { text: concat(st.buffer), first: st.first, end: i as nat, index: st.chunks.len() };
                chunks.push(
                    TextChunk {
                        text: current_chunk.clone(),
                        start_pos: offsets[first],
                        end_pos,
                        index: idx,
                    },
                );
                let overlap_text = self.get_overlap_text(&sentence_buffer);
                current_chunk = overlap_text;
                sentence_buffer = self.get_overlap_sentences(&sentence_buffer);
                proof {
                    lemma_overlap_suffix(st.buffer, p.overlap_size);
                    let o = overlap_suffix(st.buffer, p.overlap_size);
                    lemma_run_bytes(st.buffer, st.buffer.len() - o.len(), st.buffer.len() as int);
                    assert(st.buffer.subrange(st.buffer.len() - o.len(), st.buffer.len() as int) =~= o);
                    assert(chunks@ =~= before.push(chunks@[idx as int]));
                    let c = chunks@[idx as int];
                    assert(c.text@ == newrun.text);
                    assert(c.start_pos == ov[newrun.first as int]);
                    assert(ss[i - 1] == sentences@[i - 1]@);
                    assert(c.end_pos == ov[newrun.end - 1] + byte_len(ss[newrun.end - 1]));
                    assert(c.index == newrun.index);
                    assert(chunks@[idx as int]@ == run_view(ss, ov, newrun));
                    let target = st.chunks.push(newrun).map_values(|r: RunView| run_view(ss, ov, r));
                    assert(chunk_views(before) == st.chunks.map_values(|r: RunView| run_view(ss, ov, r)));
                    assert forall|k: int| 0 <= k < chunks@.len() implies chunk_views(chunks@)[k] == target[k] by {
                        if k < idx {
                            assert(chunks@[k] == before[k]);
                            assert(chunk_views(before)[k] == before[k]@);
                        }
                    }
                    assert(chunk_views(chunks@) =~= target);
                    lemma_run_bytes(st.buffer, st.buffer.len() - o.len(), st.buffer.len() as int);
                }
                cur_len = string_byte_len(&current_chunk);
                first = i - sentence_buffer.len();
                fresh = 0;
            }
            proof {
                lemma_byte_len_concat(current_chunk@, sentence@);
                if !flushed {
                    assert(chunk_views(chunks@) =~= st.chunks.map_values(|r: RunView| run_view(ss, ov, r)));
                }
            }
            let ghost before = current_chunk@;
            let ghost before_buf = string_views(sentence_buffer@);
            current_chunk.append(sentence.as_str());
            cur_len = cur_len + sentence_len;
            sentence_buffer.push(sentence.clone());
            fresh = fresh + 1;
            proof {
                assert(string_views(sentence_buffer@) =~= before_buf.push(sentence@));
                assert(before_buf.push(sentence@).drop_last() =~= before_buf);
                assert(chunk_views(chunks@) =~= chunk_scan(p, ss.take(i + 1)).chunks.map_values(|r: RunView| run_view(ss, ov, r)));
            }
            i = i + 1;
        }
        let ghost st = chunk_scan(p, ss);
        let n = sentences.len();
        proof {
            assert(ss.take(ss.len() as int) =~= ss);
            lemma_byte_len_zero(current_chunk@);
            lemma_scan(p, ss);
        }
        if cur_len > 0 && cur_len >= self.config.min_chunk_size {
            proof {
                assert(st.buffer.len() > 0) by {
                    if st.buffer.len() == 0 {
                        assert(st.buffer =~= Seq::<Seq<char>>::empty());
                    }
                }
                lemma_offset_end(text@, ss, ov, n - 1);
            }
            let idx = chunks.len();
            let end_pos = offsets[n - 1] + string_byte_len(&sentences[n - 1]);
            let ghost before = chunks@;
            let ghost newrun = RunView { text: concat(st.buffer), first: st.first, end: n as nat, index: st.chunks.len() };
            proof {
                assert(chunk_views(chunks@).len() == chunks@.len());
                assert(ss[n - 1] == sentences@[n - 1]@);
            }
            chunks.push(
                TextChunk {
                    text: current_chunk,
                    start_pos: offsets[first],
                    end_pos,
                    index: idx,
                },
            );
            proof {
                let target = st.chunks.push(newrun).map_values(|r: RunView| run_view(ss, ov, r));
                assert(chunk_finish(p, st) == st.chunks.push(newrun));
                assert(chunks@[idx as int]@ == run_view(ss, ov, newrun));
                assert forall|k: int| 0 <= k < chunks@.len() implies chunk_views(chunks@)[k] == target[k] by {
                    if k < idx {
                        assert(chunks@[k] == before[k]);
                        assert(chunk_views(before)[k] == before[k]@);
                    }
                }
                assert(chunk_views(chunks@) =~= target);
            }
        } else if cur_len > 0 && chunks.len() > 0 {
            proof {
                assert(st.buffer.len() > 0) by {
                    if st.buffer.len() == 0 {
                        assert(st.buffer =~= Seq::<Seq<char>>::empty());
                    }
                }
                lemma_offset_end(text@, ss, ov, n - 1);
            }
            let b = sentence_buffer.len();
            let mut tail = String::new();
            let mut j: usize = b - fresh;
            proof {
                assert(st.buffer.subrange(b - fresh, b - fresh) =~= Seq::<Seq<char>>::empty());
            }
            while j < b
                invariant
                    string_views(sentence_buffer@) == st.buffer,
                    b == st.buffer.len(),
                    fresh <= b,
                    b - fresh <= j <= b,
                    tail@ == concat(st.buffer.subrange(b - fresh, j as int)),
                decreases b - j,
            {
                tail.append(sentence_buffer[j].as_str());
                proof {
                    assert(st.buffer.subrange(b - fresh, j + 1).drop_last() =~= st.buffer.subrange(b - fresh, j as int));
                    assert(st.buffer.subrange(b - fresh, j + 1).last() == sentence_buffer@[j as int]@);
                }
                j = j + 1;
            }
            let end_pos = offsets[n - 1] + string_byte_len(&sentences[n - 1]);
            let ghost before = chunks@;
            proof {
                assert(chunk_views(chunks@).len() == chunks@.len());
                assert(ss[n - 1] == sentences@[n - 1]@);
                assert(chunk_views(before)[before.len() - 1] == before[before.len() - 1]@);
            }
            let last = chunks.pop().unwrap();
            let mut merged = last.text;
            merged.append(tail.as_str());
            chunks.push(
                TextChunk {
                    text: merged,
                    start_pos: last.start_pos,
                    end_pos,
                    index: last.index,
                },
            );
            proof {
                let lr = st.chunks.last();
                let tl = concat(st.buffer.subrange(b - fresh, b as int));
                let newrun = RunView { text: lr.text + tl, first: lr.first, end: n as nat, index: lr.index };
                let m = st.chunks.len();
                assert(chunk_finish(p, st) == st.chunks.drop_last().push(newrun));
                let target = st.chunks.drop_last().push(newrun).map_values(|r: RunView| run_view(ss, ov, r));
                assert(chunks@.len() == m);
                assert(chunks@[m - 1]@ == run_view(ss, ov, newrun));
                assert forall|k: int| 0 <= k < chunks@.len() implies chunk_views(chunks@)[k] == target[k] by {
                    if k < m - 1 {
                        assert(chunks@[k] == before[k]);
                        assert(chunk_views(before)[k] == before[k]@);
                    }
                }
                assert(chunk_views(chunks@) =~= target);
            }
        } else {
            proof {
                assert(chunk_finish(p, st) == st.chunks);
            }
        }
        if chunks.len() == 0 {
            chunks.push(TextChunk { text: text.to_owned(), start_pos: 0, end_pos: text_len, index: 0 });
            assert(chunk_views(chunks@) =~= chunk_spec(p, text@, ss, ov));
        }
        chunks
    }

    /// Text of the trailing sentences that fit in the overlap budget.
    pub fn get_overlap_text(&self, sentences: &[String]) -> (r: String)
        ensures
            r@ == concat(overlap_suffix(string_views(sentences@), self.config.overlap_size as nat)),
    {
        let overlap = self.get_overlap_sentences(sentences);
        concat_strings(overlap.as_slice())
    }

    /// The trailing sentences whose total size fits in the overlap budget,
    /// taken from the end and stopping at the first one that does not fit.
    pub fn get_overlap_sentences(&self, sentences: &[String]) -> (r: Vec<String>)
        ensures
            string_views(r@) == overlap_suffix(string_views(sentences@), self.config.overlap_size as nat),
    {
        let ghost ss = string_views(sentences@);
        let budget = self.config.overlap_size;
        let n = sentences.len();
        let mut j: usize = n;
        let mut total_len: usize = 0;
        let mut done = false;
        proof {
            assert(ss.subrange(n as int, n as int) =~= Seq::<Seq<char>>::empty());
            assert(concat(Seq::<Seq<char>>::empty()) =~= Seq::<char>::empty());
        }
        while !done && j > 0
            invariant
                ss == string_views(sentences@),
                n == ss.len(),
                j <= n,
                total_len <= budget,
                total_len == byte_len(concat(ss.subrange(j as int, n as int))),
                done ==> j > 0 && byte_len(ss[j - 1]) > budget - total_len,
            decreases j + (if done { 0int } else { 1int }),
        {
            let len = string_byte_len(&sentences[j - 1]);
            if len > budget - total_len {
                done = true;
            } else {
                proof {
                    let t = ss.subrange(j as int, n as int);
                    assert(ss.subrange(j - 1, n as int) =~= seq![ss[j - 1]] + t);
                    lemma_concat_append(seq![ss[j - 1]], t);
                    lemma_concat_single(ss[j - 1]);
                    lemma_byte_len_concat(ss[j - 1], concat(t));
                }
                total_len = total_len + len;
                j = j - 1;
            }
        }
        proof {
            lemma_overlap_split(ss, budget as nat, j as int);
            let pre = ss.subrange(0, j as int);
            if j > 0 {
                assert(pre.last() == ss[j - 1]);
            }
            assert(overlap_suffix(pre, (budget - total_len) as nat) =~= Seq::<Seq<char>>::empty());
            assert(Seq::<Seq<char>>::empty() + ss.subrange(j as int, n as int) =~= ss.subrange(j as int, n as int));
        }
        let mut r: Vec<String> = Vec::new();
        let mut k: usize = j;
        while k < n
            invariant
                ss == string_views(sentences@),
                n == ss.len(),
                j <= k <= n,
                string_views(r@) == ss.subrange(j as int, k as int),
            decreases n - k,
        {
            let ghost old_r = r@;
            let s = sentences[k].clone();
            r.push(s);
            proof {
                assert(r@ =~= old_r.push(s));
                assert(string_views(r@) =~= string_views(old_r).push(s@));
                assert(string_views(r@) =~= ss.subrange(j as int, k + 1));
            }
            k = k + 1;
        }
        r
    }

    /// Chunks text with a custom configuration.
    pub fn chunk_with_config(text: &str, config: ChunkConfig) -> (r: Result<Vec<TextChunk>, DocumentError>)
        ensures
            offsets_ok(text@, unicode_sentences(text@), sentence_offsets(text@)),
            r matches Ok(v) && chunks_of(config.params(), text@, v@),
    {
        let chunker = Self::new(config);
        chunker.chunk_text(text)
    }
}

/// Document type enum
#[derive(Debug, Clone, Copy, PartialEq, Eq, Structural)]
pub enum DocumentType {
    Text,
    Markdown,
    Pdf,
    Docx,
}

/// The document type that a lowercased file name selects.
pub open spec fn doc_type_for(lower: Seq<char>) -> DocumentType {
    if has_suffix(lower, ".pdf"@) {
        DocumentType::Pdf
    } else if has_suffix(lower, ".docx"@) {
        DocumentType::Docx
    } else if has_suffix(lower, ".md"@) || has_suffix(lower, ".markdown"@) {
        DocumentType::Markdown
    } else {
        DocumentType::Text
    }
}

/// The short name of a document type.
pub open spec fn doc_type_name(t: DocumentType) -> Seq<char> {
    match t {
        DocumentType::Text => "txt"@,
        DocumentType::Markdown => "md"@,
        DocumentType::Pdf => "pdf"@,
        DocumentType::Docx => "docx"@,
    }
}

impl DocumentType {
    /// Type from the file name's extension, compared case-insensitively.
    pub fn from_filename(filename: &str) -> (t: Self)
        ensures
            t == doc_type_for(lowercase(filename@)),
    {
        let lower = to_lowercase(filename);
        Self::from_lowercase_name(lower.as_str())
    }

    /// Type from the extension of a file name already in lower case.
    pub fn from_lowercase_name(lower: &str) -> (t: Self)
        ensures
            t == doc_type_for(lower@),
    {
        let l = chars_of(lower);
        if chars_end_with(l.as_slice(), ".pdf") {
            DocumentType::Pdf
        } else if chars_end_with(l.as_slice(), ".docx") {
            DocumentType::Docx
        } else if chars_end_with(l.as_slice(), ".md") || chars_end_with(l.as_slice(), ".markdown") {
            DocumentType::Markdown
        } else {
            DocumentType::Text
        }
    }

    pub fn as_str(&self) -> (s: &'static str)
        ensures
            s@ == doc_type_name(*self),
    {
        match self {
            DocumentType::Text => "txt",
            DocumentType::Markdown => "md",
            DocumentType::Pdf => "pdf",
            DocumentType::Docx => "docx",
        }
    }
}

/// Document metadata extracted during parsing.
#[derive(Debug, Clone)]
pub struct DocumentMetadata {
    pub title: Option<String>,
    pub author: Option<String>,
    pub created_date: Option<String>,
}

impl Default for DocumentMetadata {
    fn default() -> (m: Self)
        ensures
            m.title is None,
            m.author is None,
            m.created_date is None,
    {
        DocumentMetadata { title: None, author: None, created_date: None }
    }
}

/// Parsed document with metadata.
#[derive(Debug, Clone)]
pub struct ParsedDocument {
    pub text: String,
    pub page_count: Option<usize>,
    pub metadata: DocumentMetadata,
    /// Byte offsets where each page ends (for PDFs):
    /// `page_boundaries[0]` is the end of page 1, etc.
    pub page_boundaries: Vec<usize>,
}

/// Index of the first boundary strictly above `pos`, or the number of
/// boundaries when there is none.
pub open spec fn first_boundary_above(b: Seq<usize>, pos: nat) -> nat
    decreases b.len(),
{
    if b.len() == 0 {
        0
    } else if pos < b[0] {
        0
    } else {
        1 + first_boundary_above(b.drop_first(), pos)
    }
}

/// The 1-based page holding byte `pos`: the first page whose end lies
/// beyond `pos`, else the last page; `None` without page boundaries.
pub open spec fn page_for_position(b: Seq<usize>, pos: nat) -> Option<u32> {
    if b.len() == 0 {
        None
    } else if first_boundary_above(b, pos) < b.len() {
        Some((first_boundary_above(b, pos) + 1) as u32)
    } else {
        Some(b.len() as u32)
    }
}

proof fn lemma_first_boundary_above(b: Seq<usize>, pos: nat)
    ensures
        first_boundary_above(b, pos) <= b.len(),
        forall|k: int| 0 <= k < first_boundary_above(b, pos) ==> pos >= #[trigger] b[k],
        first_boundary_above(b, pos) < b.len() ==> pos < b[first_boundary_above(b, pos) as int],
    decreases b.len(),
{
    if b.len() > 0 && pos >= b[0] {
        lemma_first_boundary_above(b.drop_first(), pos);
        assert forall|k: int| 0 <= k < first_boundary_above(b, pos) implies pos >= #[trigger] b[k] by {
            if k > 0 {
                assert(b[k] == b.drop_first()[k - 1]);
            }
        }
    }
}

proof fn lemma_first_boundary_above_mono(b: Seq<usize>, p: nat, q: nat)
    requires
        p <= q,
    ensures
        first_boundary_above(b, p) <= first_boundary_above(b, q),
    decreases b.len(),
{
    if b.len() > 0 && p >= b[0] {
        lemma_first_boundary_above_mono(b.drop_first(), p, q);
    }
}

/// Page numbers never decrease along the text: a later position is never
/// on an earlier page, and with page ends known every position is on a
/// page between 1 and the number of pages.
pub proof fn page_position_law(b: Seq<usize>, p: nat, q: nat)
    requires
        b.len() > 0,
        b.len() <= u32::MAX,
        p <= q,
    ensures
        page_for_position(b, p) matches Some(x) && 1 <= x <= b.len(),
        page_for_position(b, q) matches Some(y) && 1 <= y <= b.len(),
        page_for_position(b, p)->Some_0 <= page_for_position(b, q)->Some_0,
{
    lemma_first_boundary_above(b, p);
    lemma_first_boundary_above(b, q);
    lemma_first_boundary_above_mono(b, p, q);
}

/// Page `k` (from 1) holds byte `pos`: every earlier page ends at or
/// before `pos`, and page `k` ends after it unless it is the last page.
pub open spec fn page_holds(b: Seq<usize>, k: int, pos: nat) -> bool {
    &&& 1 <= k <= b.len()
    &&& forall|i: int| 0 <= i < k - 1 ==> #[trigger] b[i] <= pos
    &&& (k == b.len() || pos < b[k - 1])
}

/// The page found for a byte is the one page that holds it.
pub proof fn page_holds_law(b: Seq<usize>, pos: nat, k: int)
    requires
        0 < b.len() <= u32::MAX,
    ensures
        page_for_position(b, pos) matches Some(p) && page_holds(b, p as int, pos),
        page_holds(b, k, pos) ==> page_for_position(b, pos) == Some(k as u32),
{
    lemma_first_boundary_above(b, pos);
    let f = first_boundary_above(b, pos) as int;
    let p = page_for_position(b, pos)->Some_0 as int;
    if f < b.len() {
        assert(p == f + 1);
    } else {
        assert(p == b.len());
    }
    if page_holds(b, k, pos) {
        if k < p {
            assert(b[k - 1] <= pos);
        } else if k > p {
            assert(b[p - 1] <= pos);
        }
    }
}

impl ParsedDocument {
    /// The 1-based page number for a byte position.
    pub fn get_page_for_position(&self, char_pos: usize) -> (r: Option<u32>)
        ensures
            r == page_for_position(self.page_boundaries@, char_pos as nat),
    {
        if self.page_boundaries.len() == 0 {
            return None;
        }
        let n = self.page_boundaries.len();
        let mut page_idx: usize = 0;
        while page_idx < n
            invariant
                n == self.page_boundaries@.len(),
                page_idx <= n,
                forall|k: int| 0 <= k < page_idx ==> char_pos >= #[trigger] self.page_boundaries@[k],
            decreases n - page_idx,
        {
            if char_pos < self.page_boundaries[page_idx] {
                proof {
                    lemma_first_boundary_above(self.page_boundaries@, char_pos as nat);
                    let f = first_boundary_above(self.page_boundaries@, char_pos as nat);
                    if f < page_idx {
                        assert(char_pos >= self.page_boundaries@[f as int]);
                    }
                    if f > page_idx {
                        assert(char_pos >= self.page_boundaries@[page_idx as int]);
                    }
                }
                return Some((page_idx + 1) as u32);
            }
            page_idx = page_idx + 1;
        }
        proof {
            lemma_first_boundary_above(self.page_boundaries@, char_pos as nat);
            let f = first_boundary_above(self.page_boundaries@, char_pos as nat);
            if f < n {
                assert(char_pos >= self.page_boundaries@[f as int]);
            }
        }
        Some(n as u32)
    }
}

/// The text and page boundaries obtained by joining page texts: pages are
/// separated by a blank line once some text exists, a page whose text
/// could not be extracted adds nothing, and each page records where the
/// text ends after it.
pub open spec fn join_pages(pages: Seq<Option<Seq<char>>>) -> (Seq<char>, Seq<nat>)
    decreases pages.len(),
{
    if pages.len() == 0 {
        (Seq::empty(), Seq::empty())
    } else {
        let (t, b) = join_pages(pages.drop_last());
        match pages.last() {
            Some(pt) => {
                let t2 = if t.len() > 0 { t + "\n\n"@ + pt } else { t + pt };
                (t2, b.push(byte_len(t2)))
            },
            None => (t, b.push(byte_len(t))),
        }
    }
}

/// Abstract value of extracted page texts.
pub open spec fn page_views(pages: Seq<Option<String>>) -> Seq<Option<Seq<char>>> {
    pages.map_values(|p: Option<String>| opt_string_view(p))
}

/// Abstract value of an optional string.
pub open spec fn opt_string_view(o: Option<String>) -> Option<Seq<char>> {
    match o {
        Some(s) => Some(s@),
        None => None,
    }
}

/// Joins extracted page texts into one text and records where each page ends.
/// There is one boundary per page, boundaries never decrease, and the last
/// one is the end of the text.
pub fn join_page_texts(pages: &[Option<String>]) -> (r: (String, Vec<usize>))
    ensures
        r.0@ == join_pages(page_views(pages@)).0,
        r.1@.map_values(|x: usize| x as nat) == join_pages(page_views(pages@)).1,
        r.1@.len() == pages@.len(),
        forall|i: int, j: int| 0 <= i <= j < r.1@.len() ==> r.1@[i] <= r.1@[j],
        pages@.len() > 0 ==> r.1@.last() == byte_len(r.0@),
{
    let ghost pv = page_views(pages@);
    let mut text = String::new();
    let mut page_boundaries: Vec<usize> = Vec::new();
    let mut i: usize = 0;
    while i < pages.len()
        invariant
            pv == page_views(pages@),
            i <= pages@.len(),
            text@ == join_pages(pv.take(i as int)).0,
            page_boundaries@.map_values(|x: usize| x as nat) == join_pages(pv.take(i as int)).1,
            page_boundaries@.len() == i,
            forall|a: int, b: int| 0 <= a <= b < page_boundaries@.len() ==> page_boundaries@[a] <= page_boundaries@[b],
            i > 0 ==> page_boundaries@.last() == byte_len(text@),
        decreases pages@.len() - i,
    {
        proof {
            assert(pv.take(i + 1).drop_last() =~= pv.take(i as int));
        }
        let ghost old_text = text@;
        match &pages[i] {
            Some(page_text) => {
                if !text.as_str().is_empty() {
                    text.append("\n\n");
                }
                text.append(page_text.as_str());
            },
            None => {},
        }
        let end = string_byte_len(&text);
        proof {
            if i > 0 {
                lemma_byte_len_prefix(old_text, text@);
            }
        }
        page_boundaries.push(end);
        proof {
            assert(page_boundaries@.map_values(|x: usize| x as nat) =~= join_pages(pv.take(i + 1)).1);
        }
        i = i + 1;
    }
    proof {
        assert(pv.take(pages@.len() as int) =~= pv);
    }
    (text, page_boundaries)
}

/// A prefix has no more bytes than the whole.
proof fn lemma_byte_len_prefix(a: Seq<char>, b: Seq<char>)
    requires
        a.is_prefix_of(b),
    ensures
        byte_len(a) <= byte_len(b),
{
    assert(b =~= a + b.subrange(a.len() as int, b.len() as int));
    lemma_byte_len_concat(a, b.subrange(a.len() as int, b.len() as int));
}

/// What `lopdf` gave for a PDF's bytes: the text of each page in page order
/// (`None` where extracting a page's text failed), and the raw bytes of the
/// `Title`, `Author` and `CreationDate` strings of the Info dictionary,
/// where present.
pub struct PdfContent {
    pub pages: Vec<Option<String>>,
    pub title: Option<Vec<u8>>,
    pub author: Option<Vec<u8>>,
    pub created_date: Option<Vec<u8>>,
}

/// What a document reader gave for a file's bytes.
pub enum Reading {
    /// No reader ran: text and Markdown are decoded directly.
    Unread,
    /// `lopdf` loaded the bytes as a PDF.
    Pdf(PdfContent),
    /// `docx-rs` read the bytes as a DOCX file: the text of each body
    /// paragraph (the text of its runs, in order).
    Docx(Vec<String>),
    /// The reader refused the bytes or failed on them; its message.
    Refused(String),
}

/// Abstract value of optional raw bytes, decoded as lossy UTF-8.
pub open spec fn decoded(o: Option<Vec<u8>>) -> Option<Seq<char>> {
    match o {
        Some(b) => Some(utf8_lossy(b@)),
        None => None,
    }
}

/// A parsed PDF built from what `lopdf` gave: the text and page ends are
/// those of joining the page texts, with one boundary per page, and each
/// metadata field is the lossy UTF-8 decoding of its Info string.
pub open spec fn pdf_parsed(c: PdfContent, d: ParsedDocument) -> bool {
    &&& d.text@ == join_pages(page_views(c.pages@)).0
    &&& d.page_boundaries@.map_values(|x: usize| x as nat) == join_pages(page_views(c.pages@)).1
    &&& d.page_count == Some(c.pages@.len() as usize)
    &&& d.page_boundaries@.len() == c.pages@.len()
    &&& forall|i: int, j: int| 0 <= i <= j < d.page_boundaries@.len()
        ==> d.page_boundaries@[i] <= d.page_boundaries@[j]
    &&& d.page_boundaries@.len() > 0 ==> d.page_boundaries@.last() == byte_len(d.text@)
    &&& opt_string_view(d.metadata.title) == decoded(c.title)
    &&& opt_string_view(d.metadata.author) == decoded(c.author)
    &&& opt_string_view(d.metadata.created_date) == decoded(c.created_date)
}

/// A parsed DOCX file built from its paragraph texts: one line per
/// paragraph, no pages and no metadata.
pub open spec fn docx_parsed(paragraphs: Seq<Seq<char>>, d: ParsedDocument) -> bool {
    &&& d.text@ == paragraph_lines(paragraphs)
    &&& d.page_count is None
    &&& d.page_boundaries@.len() == 0
    &&& d.metadata.title is None
    &&& d.metadata.author is None
    &&& d.metadata.created_date is None
}

/// Paragraph texts, each followed by a newline.
pub open spec fn paragraph_lines(paras: Seq<Seq<char>>) -> Seq<char>
    decreases paras.len(),
{
    if paras.len() == 0 {
        Seq::empty()
    } else {
        paragraph_lines(paras.drop_last()) + paras.last() + "\n"@
    }
}

/// Document parser that handles multiple formats.
pub struct DocumentParser;

impl DocumentParser {
    /// Parses a document according to its type. Text and Markdown always
    /// succeed and decode the bytes as UTF-8 (invalid sequences replaced).
    /// A PDF or DOCX file is built from what its reader gave for the bytes;
    /// a refusal by the reader is the error `Failed to load PDF: <reason>`
    /// or `Failed to read DOCX: <reason>`.
    pub fn parse(content: &[u8], doc_type: DocumentType, reading: Reading) -> (r: Result<ParsedDocument, DocumentError>)
        requires
            doc_type == DocumentType::Pdf ==> (reading is Pdf || reading is Refused),
            doc_type == DocumentType::Docx ==> (reading is Docx || reading is Refused),
        ensures
            (doc_type == DocumentType::Text || doc_type == DocumentType::Markdown) ==> {
                &&& r is Ok
                &&& r->Ok_0.text@ == utf8_lossy(content@)
                &&& r->Ok_0.page_count is None
                &&& r->Ok_0.page_boundaries@.len() == 0
                &&& r->Ok_0.metadata.title is None
                &&& r->Ok_0.metadata.author is None
                &&& r->Ok_0.metadata.created_date is None
            },
            doc_type == DocumentType::Pdf ==> match reading {
                Reading::Pdf(c) => r matches Ok(d) && pdf_parsed(c, d),
                Reading::Refused(m) => r matches Err(DocumentError::PdfLoad(x)) && x@ == m@,
                _ => true,
            },
            doc_type == DocumentType::Docx ==> match reading {
                Reading::Docx(ps) => r matches Ok(d) && docx_parsed(string_views(ps@), d),
                Reading::Refused(m) => r matches Err(DocumentError::DocxRead(x)) && x@ == m@,
                _ => true,
            },
    {
        match doc_type {
            DocumentType::Text | DocumentType::Markdown => Self::parse_text(content),
            DocumentType::Pdf => match reading {
                Reading::Pdf(c) => Ok(Self::parse_pdf(&c)),
                Reading::Refused(m) => Err(DocumentError::PdfLoad(m)),
                _ => {
                    proof {
                        assert(false);
                    }
                    Err(DocumentError::PdfLoad(String::new()))
                },
            },
            DocumentType::Docx => match reading {
                Reading::Docx(ps) => Ok(Self::parse_docx(ps.as_slice())),
                Reading::Refused(m) => Err(DocumentError::DocxRead(m)),
                _ => {
                    proof {
                        assert(false);
                    }
                    Err(DocumentError::DocxRead(String::new()))
                },
            },
        }
    }

    /// Parses plain text or Markdown.
    pub fn parse_text(content: &[u8]) -> (r: Result<ParsedDocument, DocumentError>)
        ensures
            r is Ok,
            r->Ok_0.text@ == utf8_lossy(content@),
            r->Ok_0.page_count is None,
            r->Ok_0.page_boundaries@.len() == 0,
            r->Ok_0.metadata.title is None,
            r->Ok_0.metadata.author is None,
            r->Ok_0.metadata.created_date is None,
    {
        let text = decode_lossy(content);
        Ok(ParsedDocument {
            text,
            page_count: None,
            metadata: DocumentMetadata::default(),
            page_boundaries: Vec::new(),
        })
    }

    /// Builds a parsed PDF from its page texts and Info strings.
    pub fn parse_pdf(c: &PdfContent) -> (d: ParsedDocument)
        ensures
            pdf_parsed(*c, d),
    {
        let (text, page_boundaries) = join_page_texts(c.pages.as_slice());
        let metadata = Self::extract_pdf_metadata(c);
        ParsedDocument { text, page_count: Some(c.pages.len()), metadata, page_boundaries }
    }

    /// Title, author and creation date: the lossy UTF-8 decoding of the
    /// Info dictionary's `Title`, `Author` and `CreationDate` strings; a
    /// missing string leaves its field empty.
    pub fn extract_pdf_metadata(c: &PdfContent) -> (m: DocumentMetadata)
        ensures
            opt_string_view(m.title) == decoded(c.title),
            opt_string_view(m.author) == decoded(c.author),
            opt_string_view(m.created_date) == decoded(c.created_date),
    {
        let mut metadata = DocumentMetadata::default();
        if let Some(bytes) = &c.title {
            metadata.title = Some(decode_lossy(bytes.as_slice()));
        }
        if let Some(bytes) = &c.author {
            metadata.author = Some(decode_lossy(bytes.as_slice()));
        }
        if let Some(bytes) = &c.created_date {
            metadata.created_date = Some(decode_lossy(bytes.as_slice()));
        }
        metadata
    }

    /// Builds a parsed DOCX file from its paragraph texts, one line per paragraph.
    pub fn parse_docx(paragraphs: &[String]) -> (d: ParsedDocument)
        ensures
            docx_parsed(string_views(paragraphs@), d),
    {
        let mut text = String::new();
        let mut i: usize = 0;
        while i < paragraphs.len()
            invariant
                i <= paragraphs@.len(),
                text@ == paragraph_lines(string_views(paragraphs@).take(i as int)),
            decreases paragraphs@.len() - i,
        {
            text.append(paragraphs[i].as_str());
            text.append("\n");
            proof {
                let t = string_views(paragraphs@).take(i + 1);
                assert(t.drop_last() =~= string_views(paragraphs@).take(i as int));
                assert(t.last() == paragraphs@[i as int]@);
            }
            i = i + 1;
        }
        assert(string_views(paragraphs@).take(paragraphs@.len() as int) =~= string_views(paragraphs@));
        ParsedDocument {
            text,
            page_count: None,
            metadata: DocumentMetadata::default(),
            page_boundaries: Vec::new(),
        }
    }
}

} // verus!
