//! Splitting a document's text into ordered, bounded-weight chunks.
//!
//! Policy: the text is divided into sentences at each `'.'` (the period stays
//! with its sentence); each sentence, trimmed of surrounding whitespace, makes
//! one chunk. A sentence whose weight (non-whitespace character count, see
//! [`crate::text::weight`]) exceeds the bound is hard-cut into consecutive
//! pieces of exactly `max_chunk_length` characters (the last piece shorter),
//! so every chunk's weight stays within the bound. Pieces that trim to nothing
//! are dropped; an empty document yields no chunks.
use vstd::prelude::*;

use crate::text::is_ws;
use crate::text::lemma_trim_back_at;
use crate::text::lemma_trim_front_at;
use crate::text::lemma_weight_le_len;
use crate::text::trimmed;
use crate::text::weight;
use crate::text::count_weight;
use crate::text::ws_char;

verus! {

/// A bounded-weight piece of a document's text, tagged with its position in
/// the document and the identifier of its source.
pub struct Chunk {
    pub text: String,
    pub sequence_index: usize,
    pub source_id: String,
}

/// The texts of a sequence of chunks, in order.
pub open spec fn texts_of(chunks: Seq<Chunk>) -> Seq<Seq<char>> {
    chunks.map_values(|c: Chunk| c.text@)
}

/// Length of the prefix of `t` before its first `'.'`; `t.len()` if `t` has
/// no `'.'`.
pub open spec fn dot_pos(t: Seq<char>) -> int
    decreases t.len(),
{
    if t.len() == 0 {
        0
    } else if t[0] == '.' {
        0
    } else {
        1 + dot_pos(t.skip(1))
    }
}

pub proof fn lemma_dot_pos_bounds(t: Seq<char>)
    ensures
        0 <= dot_pos(t) <= t.len(),
        forall|j: int| 0 <= j < dot_pos(t) ==> #[trigger] t[j] != '.',
        dot_pos(t) < t.len() ==> t[dot_pos(t)] == '.',
    decreases t.len(),
{
    if t.len() > 0 && t[0] != '.' {
        lemma_dot_pos_bounds(t.skip(1));
        assert(forall|j: int|
            1 <= j < dot_pos(t) ==> #[trigger] t[j] == t.skip(1)[j - 1] && t.skip(1)[j - 1] != '.');
    }
}

/// `dot_pos` is pinned by the first-occurrence characterization.
pub proof fn lemma_dot_pos_at(t: Seq<char>, k: int)
    requires
        0 <= k <= t.len(),
        forall|j: int| 0 <= j < k ==> #[trigger] t[j] != '.',
        k < t.len() ==> t[k] == '.',
    ensures
        dot_pos(t) == k,
    decreases k,
{
    if k == 0 {
    } else {
        assert(t[0] != '.');
        lemma_dot_pos_at(t.skip(1), k - 1);
    }
}

/// Cut a piece of text into consecutive slices of `max_len` characters until
/// the remainder's weight fits within `max_len`.
pub open spec fn cut(s: Seq<char>, max_len: nat) -> Seq<Seq<char>>
    decreases s.len(),
    via cut_decreases
{
    if max_len == 0 {
        Seq::empty()
    } else if weight(s) <= max_len {
        seq![s]
    } else {
        seq![s.take(max_len as int)] + cut(s.skip(max_len as int), max_len)
    }
}

#[via_fn]
proof fn cut_decreases(s: Seq<char>, max_len: nat) {
    lemma_weight_le_len(s);
}

/// The sentences of `t`, in source order: the text up to and including each
/// `'.'`, then the trailing remainder, each trimmed, empties dropped.
pub open spec fn sentence_list(t: Seq<char>) -> Seq<Seq<char>>
    decreases t.len(),
    via sentence_list_decreases
{
    if t.len() == 0 {
        Seq::empty()
    } else {
        let d = dot_pos(t);
        if d < t.len() {
            let piece = trimmed(t.take(d + 1));
            let rest = sentence_list(t.skip(d + 1));
            if piece.len() == 0 {
                rest
            } else {
                seq![piece] + rest
            }
        } else {
            let piece = trimmed(t);
            if piece.len() == 0 {
                Seq::empty()
            } else {
                seq![piece]
            }
        }
    }
}

#[via_fn]
proof fn sentence_list_decreases(t: Seq<char>) {
    lemma_dot_pos_bounds(t);
}

/// Cut every sentence, keeping sentence order.
pub open spec fn cut_all(ss: Seq<Seq<char>>, max_len: nat) -> Seq<Seq<char>>
    decreases ss.len(),
{
    if ss.len() == 0 {
        Seq::empty()
    } else {
        cut(ss[0], max_len) + cut_all(ss.skip(1), max_len)
    }
}

/// The chunk texts of a document: its sentences, over-weight ones hard-cut.
pub open spec fn chunk_texts(t: Seq<char>, max_len: nat) -> Seq<Seq<char>> {
    cut_all(sentence_list(t), max_len)
}

/// Chunking is deterministic: any two chunk-text sequences that [`split`]'s
/// contract pins to the same document and bound are the identical sequence.
pub proof fn lemma_split_deterministic(
    a: Seq<Seq<char>>,
    b: Seq<Seq<char>>,
    t: Seq<char>,
    max_len: nat,
)
    requires
        a == chunk_texts(t, max_len),
        b == chunk_texts(t, max_len),
    ensures
        a == b,
{
}

/// Every piece that `cut` yields from a nonempty text is nonempty and weighs
/// at most `max_len`.
pub proof fn lemma_cut_wf(s: Seq<char>, max_len: nat)
    requires
        1 <= max_len,
        s.len() > 0,
    ensures
        forall|i: int|
            0 <= i < cut(s, max_len).len() ==> 0 < (#[trigger] cut(s, max_len)[i]).len()
                && weight(cut(s, max_len)[i]) <= max_len,
    decreases s.len(),
{
    if weight(s) <= max_len {
    } else {
        lemma_weight_le_len(s);
        lemma_weight_le_len(s.take(max_len as int));
        lemma_cut_wf(s.skip(max_len as int), max_len);
        let rest = cut(s.skip(max_len as int), max_len);
        let all = cut(s, max_len);
        assert forall|i: int|
            0 <= i < all.len() implies 0 < (#[trigger] all[i]).len() && weight(all[i])
            <= max_len by {
            if i == 0 {
                assert(all[0] == s.take(max_len as int));
            } else {
                assert(all[i] == rest[i - 1]);
            }
        }
    }
}

/// The pieces of `cut` concatenate back to the text that was cut: nothing is
/// lost, reordered, or duplicated.
pub proof fn lemma_cut_concat(s: Seq<char>, max_len: nat)
    requires
        1 <= max_len,
    ensures
        concat_all(cut(s, max_len)) == s,
    decreases s.len(),
{
    if weight(s) <= max_len {
        lemma_concat_all_single(s);
    } else {
        lemma_weight_le_len(s);
        lemma_cut_concat(s.skip(max_len as int), max_len);
        lemma_concat_all_app(seq![s.take(max_len as int)], cut(s.skip(max_len as int), max_len));
        lemma_concat_all_single(s.take(max_len as int));
        assert(s.take(max_len as int) + s.skip(max_len as int) =~= s);
    }
}

pub proof fn lemma_concat_all_single(x: Seq<char>)
    ensures
        concat_all(seq![x]) == x,
{
    assert(seq![x].len() == 1);
    assert(seq![x][0] == x);
    assert(seq![x].skip(1) =~= Seq::<Seq<char>>::empty());
    assert(concat_all(Seq::<Seq<char>>::empty()) == Seq::<char>::empty());
    assert(x + Seq::<char>::empty() =~= x);
}

/// Concatenation of a sequence of texts.
pub open spec fn concat_all(ss: Seq<Seq<char>>) -> Seq<char>
    decreases ss.len(),
{
    if ss.len() == 0 {
        Seq::empty()
    } else {
        ss[0] + concat_all(ss.skip(1))
    }
}

pub proof fn lemma_concat_all_app(a: Seq<Seq<char>>, b: Seq<Seq<char>>)
    ensures
        concat_all(a + b) == concat_all(a) + concat_all(b),
    decreases a.len(),
{
    if a.len() == 0 {
        assert(a + b =~= b);
        assert(Seq::<char>::empty() + concat_all(b) =~= concat_all(b));
    } else {
        lemma_concat_all_app(a.skip(1), b);
        assert((a + b).skip(1) =~= a.skip(1) + b);
        assert((a + b)[0] == a[0]);
        assert(a[0] + (concat_all(a.skip(1)) + concat_all(b)) =~= (a[0] + concat_all(a.skip(1)))
            + concat_all(b));
    }
}

/// Every sentence is nonempty.
pub proof fn lemma_sentence_list_wf(t: Seq<char>)
    ensures
        forall|i: int|
            0 <= i < sentence_list(t).len() ==> 0 < (#[trigger] sentence_list(t)[i]).len(),
    decreases t.len(),
{
    if t.len() > 0 {
        lemma_dot_pos_bounds(t);
        let d = dot_pos(t);
        let sl = sentence_list(t);
        if d < t.len() {
            lemma_sentence_list_wf(t.skip(d + 1));
            let piece = trimmed(t.take(d + 1));
            let rest = sentence_list(t.skip(d + 1));
            if piece.len() > 0 {
                assert forall|i: int| 0 <= i < sl.len() implies 0 < (#[trigger] sl[i]).len() by {
                    if i > 0 {
                        assert(sl[i] == rest[i - 1]);
                    }
                }
            }
        }
    }
}

pub proof fn lemma_cut_all_wf(ss: Seq<Seq<char>>, max_len: nat)
    requires
        1 <= max_len,
        forall|i: int| 0 <= i < ss.len() ==> 0 < (#[trigger] ss[i]).len(),
    ensures
        forall|i: int|
            0 <= i < cut_all(ss, max_len).len() ==> 0 < (#[trigger] cut_all(ss, max_len)[i]).len()
                && weight(cut_all(ss, max_len)[i]) <= max_len,
    decreases ss.len(),
{
    if ss.len() > 0 {
        lemma_cut_wf(ss[0], max_len);
        lemma_cut_all_wf(ss.skip(1), max_len);
        let head = cut(ss[0], max_len);
        let rest = cut_all(ss.skip(1), max_len);
        let all = cut_all(ss, max_len);
        assert forall|i: int|
            0 <= i < all.len() implies 0 < (#[trigger] all[i]).len() && weight(all[i])
            <= max_len by {
            if i < head.len() {
                assert(all[i] == head[i]);
            } else {
                assert(all[i] == rest[i - head.len()]);
            }
        }
    }
}

/// Every chunk text is nonempty and weighs at most `max_len`.
pub proof fn lemma_chunk_texts_wf(t: Seq<char>, max_len: nat)
    requires
        1 <= max_len,
    ensures
        forall|i: int|
            0 <= i < chunk_texts(t, max_len).len() ==> 0 < (#[trigger] chunk_texts(t, max_len)[i]).len()
                && weight(chunk_texts(t, max_len)[i]) <= max_len,
{
    lemma_sentence_list_wf(t);
    lemma_cut_all_wf(sentence_list(t), max_len);
}

/// Chunking keeps source order: the chunk texts concatenate to exactly the
/// document's sentences, in sentence order.
pub proof fn lemma_chunk_texts_order(t: Seq<char>, max_len: nat)
    requires
        1 <= max_len,
    ensures
        concat_all(chunk_texts(t, max_len)) == concat_all(sentence_list(t)),
{
    lemma_cut_all_order(sentence_list(t), max_len);
}

/// Split `document_text` into ordered, bounded-weight chunks. The chunk
/// sequence is a pure function of `document_text` and `max_chunk_length`
/// (see [`chunk_texts`]): calling `split` twice on the same inputs yields the
/// identical sequence. `sequence_index` runs 0, 1, 2, ... with no gaps; no
/// chunk is empty; every chunk's weight is at most `max_chunk_length`; an
/// empty document yields no chunks.
#[verifier::rlimit(60)]
pub fn split(document_text: &str, max_chunk_length: usize, source_id: &str) -> (chunks: Vec<
    Chunk,
>)
    requires
        1 <= max_chunk_length,
    ensures
        texts_of(chunks@) == chunk_texts(document_text@, max_chunk_length as nat),
        chunks@.len() == chunk_texts(document_text@, max_chunk_length as nat).len(),
        forall|i: int|
            0 <= i < chunks@.len() ==> (#[trigger] chunks@[i]).text@ == chunk_texts(
                document_text@,
                max_chunk_length as nat,
            )[i],
        forall|i: int| 0 <= i < chunks@.len() ==> (#[trigger] chunks@[i]).sequence_index == i,
        forall|i: int| 0 <= i < chunks@.len() ==> (#[trigger] chunks@[i]).source_id@ == source_id@,
        forall|i: int|
            0 <= i < chunks@.len() ==> 0 < (#[trigger] chunks@[i]).text@.len() && weight(
                chunks@[i].text@,
            ) <= max_chunk_length,
        document_text@.len() == 0 ==> chunks@.len() == 0,
{
    let ghost t = document_text@;
    let ghost ml = max_chunk_length as nat;
    let n = document_text.unicode_len();
    let mut chunks: Vec<Chunk> = Vec::new();
    let mut pos: usize = 0;
    proof {
        assert(texts_of(chunks@) =~= Seq::<Seq<char>>::empty());
        assert(t.skip(0) =~= t);
        assert(texts_of(chunks@) + chunk_texts(t, ml) =~= chunk_texts(t, ml));
    }
    while pos < n
        invariant
            pos <= n,
            texts_of(chunks@) + chunk_texts(t.skip(pos as int), ml) == chunk_texts(t, ml),
            forall|i: int| 0 <= i < chunks@.len() ==> (#[trigger] chunks@[i]).sequence_index == i,
            forall|i: int|
                0 <= i < chunks@.len() ==> (#[trigger] chunks@[i]).source_id@ == source_id@,
        decreases n - pos,
    {
        let ghost u = t.skip(pos as int);
        // find the first '.' at or after pos
        let mut d: usize = pos;
        while d < n && document_text.get_char(d) != '.'
            invariant
                pos <= d <= n,
                forall|j: int| pos <= j < d ==> #[trigger] t[j] != '.',
            decreases n - d,
        {
            d = d + 1;
        }
        let end = if d < n {
            d + 1
        } else {
            n
        };
        proof {
            assert forall|j: int| 0 <= j < d - pos implies #[trigger] u[j] != '.' by {
                assert(u[j] == t[j + pos]);
            }
            if d < n {
                assert(u[d - pos] == t[d as int]);
            }
            lemma_dot_pos_at(u, d - pos);
            // the piece under consideration and the remainder after it
            assert(u.take(end - pos) =~= t.subrange(pos as int, end as int));
            assert(u.skip(end - pos) =~= t.skip(end as int));
            if d == n {
                assert(u.take(end - pos) =~= u);
                assert(t.skip(end as int) =~= Seq::<char>::empty());
            }
        }
        let ghost piece_range = t.subrange(pos as int, end as int);
        let ghost rest_sl = sentence_list(t.skip(end as int));
        // now: sentence_list(u) is trimmed(piece_range) prepended to rest_sl
        // (or rest_sl alone if the piece trims to nothing)
        // trim the piece
        let mut lo: usize = pos;
        while lo < end && ws_char(document_text.get_char(lo))
            invariant
                pos <= lo <= end,
                forall|j: int| pos <= j < lo ==> is_ws(#[trigger] t[j]),
            decreases end - lo,
        {
            lo = lo + 1;
        }
        if lo == end {
            // the piece is all whitespace: it contributes no sentence
            proof {
                lemma_trim_front_at(piece_range, end - pos);
                assert(piece_range.skip(end - pos) =~= Seq::<char>::empty());
                assert(trimmed(piece_range).len() == 0);
                assert(sentence_list(u) == rest_sl);
                assert(chunk_texts(t.skip(pos as int), ml) == chunk_texts(t.skip(end as int), ml));
            }
            pos = end;
        } else {
            let mut hi: usize = end - 1;
            while ws_char(document_text.get_char(hi))
                invariant
                    lo <= hi < end,
                    forall|j: int| hi < j < end ==> is_ws(#[trigger] t[j]),
                decreases hi,
            {
                hi = hi - 1;
            }
            let ghost piece = t.subrange(lo as int, hi + 1);
            proof {
                // the trimmed piece is exactly t[lo ..= hi]
                assert forall|j: int| 0 <= j < lo - pos implies is_ws(#[trigger] piece_range[j]) by {
                    assert(piece_range[j] == t[j + pos]);
                }
                assert(piece_range[lo - pos] == t[lo as int]);
                lemma_trim_front_at(piece_range, lo - pos);
                assert(piece_range.skip(lo - pos) =~= t.subrange(lo as int, end as int));
                let tail = t.subrange(lo as int, end as int);
                assert forall|j: int|
                    hi + 1 - lo <= j < tail.len() implies is_ws(#[trigger] tail[j]) by {
                    assert(tail[j] == t[j + lo]);
                }
                assert(tail[hi - lo] == t[hi as int]);
                lemma_trim_back_at(tail, hi + 1 - lo);
                assert(tail.take(hi + 1 - lo) =~= piece);
                assert(trimmed(piece_range) == piece);
                // unfold the chunk texts of the remainder at this sentence
                assert(piece.len() > 0);
                assert(sentence_list(u) == seq![piece] + rest_sl);
                assert((seq![piece] + rest_sl)[0] == piece);
                assert((seq![piece] + rest_sl).skip(1) =~= rest_sl);
                assert(chunk_texts(t.skip(pos as int), ml) == cut(piece, ml) + chunk_texts(
                    t.skip(end as int),
                    ml,
                ));
            }
            // emit the piece, hard-cutting while its weight exceeds the bound
            let ghost before_piece = chunks@;
            emit_cut(&mut chunks, document_text, lo, hi + 1, max_chunk_length, source_id);
            proof {
                assert(texts_of(chunks@) + chunk_texts(t.skip(end as int), ml) =~~= texts_of(
                    before_piece,
                ) + (cut(piece, ml) + chunk_texts(t.skip(end as int), ml)));
            }
            pos = end;
        }
    }
    proof {
        assert(t.skip(n as int) =~= Seq::<char>::empty());
        assert(chunk_texts(Seq::<char>::empty(), ml) =~= Seq::<Seq<char>>::empty());
        assert(texts_of(chunks@) =~= texts_of(chunks@) + chunk_texts(t.skip(n as int), ml));
        lemma_chunk_texts_wf(t, ml);
        assert forall|i: int|
            0 <= i < chunks@.len() implies 0 < (#[trigger] chunks@[i]).text@.len() && weight(
            chunks@[i].text@,
        ) <= max_chunk_length by {
            assert(chunks@[i].text@ == texts_of(chunks@)[i]);
        }
    }
    chunks
}

/// Append one chunk per piece of [`cut`] applied to
/// `document_text@.subrange(lo, pend)`, numbering on from the chunks already
/// present.
fn emit_cut(
    chunks: &mut Vec<Chunk>,
    document_text: &str,
    lo: usize,
    pend: usize,
    max_chunk_length: usize,
    source_id: &str,
)
    requires
        1 <= max_chunk_length,
        lo < pend <= document_text@.len(),
        forall|i: int|
            0 <= i < old(chunks)@.len() ==> (#[trigger] old(chunks)@[i]).sequence_index == i,
        forall|i: int|
            0 <= i < old(chunks)@.len() ==> (#[trigger] old(chunks)@[i]).source_id@ == source_id@,
    ensures
        texts_of(final(chunks)@) == texts_of(old(chunks)@) + cut(
            document_text@.subrange(lo as int, pend as int),
            max_chunk_length as nat,
        ),
        forall|i: int|
            0 <= i < final(chunks)@.len() ==> (#[trigger] final(chunks)@[i]).sequence_index == i,
        forall|i: int|
            0 <= i < final(chunks)@.len() ==> (#[trigger] final(chunks)@[i]).source_id@ == source_id@,
{
    let ghost t = document_text@;
    let ghost ml = max_chunk_length as nat;
    let ghost orig = old(chunks)@;
    let mut cpos = lo;
    let mut wrem = count_weight(document_text, cpos, pend);
    while wrem > max_chunk_length
        invariant
            lo <= cpos < pend,
            wrem == weight(t.subrange(cpos as int, pend as int)),
            texts_of(chunks@) + cut(t.subrange(cpos as int, pend as int), ml) == texts_of(orig)
                + cut(t.subrange(lo as int, pend as int), ml),
            forall|i: int| 0 <= i < chunks@.len() ==> (#[trigger] chunks@[i]).sequence_index == i,
            forall|i: int|
                0 <= i < chunks@.len() ==> (#[trigger] chunks@[i]).source_id@ == source_id@,
        decreases pend - cpos,
    {
        let ghost sub = t.subrange(cpos as int, pend as int);
        proof {
            lemma_weight_le_len(sub);
            assert(sub.len() > ml);
            assert(sub.take(ml as int) =~= t.subrange(cpos as int, cpos + ml));
            assert(sub.skip(ml as int) =~= t.subrange(cpos + ml, pend as int));
        }
        let ghost before = chunks@;
        let piece_str = document_text.substring_char(cpos, cpos + max_chunk_length);
        let idx = chunks.len();
        chunks.push(
            Chunk {
                text: piece_str.to_owned(),
                sequence_index: idx,
                source_id: source_id.to_owned(),
            },
        );
        proof {
            assert(texts_of(chunks@) =~~= texts_of(before).push(sub.take(ml as int)));
            assert(texts_of(chunks@) + cut(sub.skip(ml as int), ml) =~~= texts_of(before) + cut(
                sub,
                ml,
            ));
        }
        cpos = cpos + max_chunk_length;
        wrem = count_weight(document_text, cpos, pend);
    }
    // the remainder fits in one chunk
    let ghost sub = t.subrange(cpos as int, pend as int);
    let ghost before = chunks@;
    let piece_str = document_text.substring_char(cpos, pend);
    let idx = chunks.len();
    chunks.push(
        Chunk { text: piece_str.to_owned(), sequence_index: idx, source_id: source_id.to_owned() },
    );
    proof {
        assert(cut(sub, ml) == seq![sub]);
        assert(texts_of(chunks@) =~~= texts_of(before).push(sub));
        assert(texts_of(chunks@) =~~= texts_of(before) + cut(sub, ml));
    }
}

pub proof fn lemma_cut_all_order(ss: Seq<Seq<char>>, max_len: nat)
    requires
        1 <= max_len,
    ensures
        concat_all(cut_all(ss, max_len)) == concat_all(ss),
    decreases ss.len(),
{
    if ss.len() > 0 {
        lemma_cut_concat(ss[0], max_len);
        lemma_cut_all_order(ss.skip(1), max_len);
        lemma_concat_all_app(cut(ss[0], max_len), cut_all(ss.skip(1), max_len));
    }
}

} // verus!
