//! Splitting long text into chunks of whole paragraphs.
use vstd::prelude::*;
use vstd::string::StringSliceAdditionalSpecFns;
use vstd::utf8::{
    encode_utf8, encode_utf8_valid_utf8, is_char_boundary, is_char_boundary_iff_not_is_continuation_byte,
    is_char_boundary_start_end_of_seq, valid_utf8, valid_utf8_split,
};

verus! {

/// Paragraphs of `b`, the pieces between occurrences of two newline bytes,
/// found left to right: the scan from `start`, currently at `i`.
pub open spec fn split_from(b: Seq<u8>, start: int, i: int) -> Seq<Seq<u8>>
    decreases b.len() - i,
{
    if i + 1 >= b.len() || i < 0 {
        seq![b.subrange(start, b.len() as int)]
    } else if b[i] == 10 && b[i + 1] == 10 {
        seq![b.subrange(start, i)] + split_from(b, i + 2, i + 2)
    } else {
        split_from(b, start, i + 1)
    }
}

/// The paragraphs of `b` (the pieces of `b` split at each `"\n\n"`).
pub open spec fn paragraphs(b: Seq<u8>) -> Seq<Seq<u8>> {
    split_from(b, 0, 0)
}

/// One step of chunking: close the current chunk if adding a blank line and
/// `p` would take it past `max` bytes, then append `p` (after a blank line if
/// the chunk is not empty).
pub open spec fn chunk_step(state: (Seq<Seq<u8>>, Seq<u8>), p: Seq<u8>, max: nat) -> (Seq<Seq<u8>>, Seq<u8>) {
    let done = state.0;
    let cur = state.1;
    let closed = cur.len() + 2 + p.len() > max && cur.len() > 0;
    let done2 = if closed { done.push(cur) } else { done };
    let cur2 = if closed { Seq::<u8>::empty() } else { cur };
    let cur3 = if cur2.len() > 0 { cur2 + seq![10u8, 10u8] } else { cur2 };
    (done2, cur3 + p)
}

/// Closed chunks and the open chunk after the given paragraphs.
pub open spec fn chunk_fold(ps: Seq<Seq<u8>>, max: nat) -> (Seq<Seq<u8>>, Seq<u8>)
    decreases ps.len(),
{
    if ps.len() == 0 {
        (Seq::empty(), Seq::empty())
    } else {
        chunk_step(chunk_fold(ps.drop_last(), max), ps.last(), max)
    }
}

/// The chunks of the UTF-8 text `b` with at most `max` bytes per chunk where
/// paragraphs allow it.
pub open spec fn chunk_bytes(b: Seq<u8>, max: nat) -> Seq<Seq<u8>> {
    let st = chunk_fold(paragraphs(b), max);
    if st.1.len() > 0 {
        st.0.push(st.1)
    } else {
        st.0
    }
}

/// A newline byte and the byte after it both start characters.
proof fn lemma_newline_boundaries(b: Seq<u8>, j: int)
    requires
        valid_utf8(b),
        0 <= j < b.len(),
        b[j] == 10,
    ensures
        is_char_boundary(b, j),
        is_char_boundary(b, j + 1),
{
    is_char_boundary_iff_not_is_continuation_byte(b, j);
    is_char_boundary_start_end_of_seq(b);
    if j + 1 < b.len() {
        valid_utf8_split(b, j);
        let rest = b.subrange(j, b.len() as int);
        assert(rest[0] == 10);
        reveal_with_fuel(is_char_boundary, 2);
        assert(is_char_boundary(rest, 1));
        is_char_boundary_iff_not_is_continuation_byte(rest, 1);
        assert(rest[1] == b[j + 1]);
        is_char_boundary_iff_not_is_continuation_byte(b, j + 1);
    }
}

/// A byte offset where a chunk may start: the text start or just after a newline.
pub open spec fn chunk_start_ok(b: Seq<u8>, x: int) -> bool {
    x == 0 || (1 <= x <= b.len() && b[x - 1] == 10)
}

/// A byte offset where a chunk may end: the text end or at a newline.
pub open spec fn chunk_end_ok(b: Seq<u8>, x: int) -> bool {
    x == b.len() || (0 <= x < b.len() && b[x] == 10)
}

/// The text between two byte offsets, as an owned string.
fn substring(text: &str, from: usize, to: usize) -> (s: String)
    requires
        from <= to <= text.spec_bytes().len(),
        chunk_start_ok(text.spec_bytes(), from as int),
        chunk_end_ok(text.spec_bytes(), to as int),
    ensures
        encode_utf8(s@) == text.spec_bytes().subrange(from as int, to as int),
{
    let ghost b = text.spec_bytes();
    proof {
        encode_utf8_valid_utf8(text@);
        is_char_boundary_start_end_of_seq(b);
        if from > 0 {
            lemma_newline_boundaries(b, from - 1);
        }
    }
    let (_, tail) = text.split_at(from);
    proof {
        let t = tail.spec_bytes();
        assert(t =~= b.subrange(from as int, b.len() as int));
        valid_utf8_split(b, from as int);
        is_char_boundary_start_end_of_seq(t);
        if to < b.len() {
            assert(t[to - from] == b[to as int]);
            lemma_newline_boundaries(t, to - from);
        }
    }
    let (piece, _) = tail.split_at(to - from);
    proof {
        assert(piece.spec_bytes() =~= b.subrange(from as int, to as int));
    }
    piece.to_string()
}

/// Splits `text` at blank lines (`"\n\n"`) and packs the paragraphs, in
/// order and joined by blank lines, into chunks: a chunk is closed before a
/// paragraph that, with the blank line before it, would take it past
/// `max_chars` bytes. A paragraph longer
/// than that forms a chunk of its own. Empty chunks are not returned.
pub fn chunk_text(text: &str, max_chars: usize) -> (chunks: Vec<String>)
    ensures
        chunks@.len() == chunk_bytes(text.spec_bytes(), max_chars as nat).len(),
        forall|k: int| 0 <= k < chunks@.len() ==> encode_utf8(#[trigger] chunks@[k]@) == chunk_bytes(text.spec_bytes(), max_chars as nat)[k],
{
    let bytes = text.as_bytes();
    let ghost b = text.spec_bytes();
    let n = bytes.len();
    let ghost max = max_chars as nat;
    let mut chunks: Vec<String> = Vec::new();
    let mut cs: usize = 0;
    let mut ce: usize = 0;
    let mut start: usize = 0;
    let mut i: usize = 0;
    let ghost mut processed: Seq<Seq<u8>> = Seq::empty();
    let ghost mut last_end: int = 0;
    loop
        invariant_except_break
            max == max_chars as nat,
            bytes@ == b,
            b == text.spec_bytes(),
            n == b.len(),
            start <= i <= n,
            paragraphs(b) == processed + split_from(b, start as int, i as int),
            chunk_fold(processed, max).0.len() == chunks@.len(),
            forall|k: int| 0 <= k < chunks@.len() ==> encode_utf8(#[trigger] chunks@[k]@) == chunk_fold(processed, max).0[k],
            chunk_fold(processed, max).1 == b.subrange(cs as int, ce as int),
            cs <= ce <= n,
            chunk_start_ok(b, cs as int),
            cs < ce ==> chunk_end_ok(b, ce as int),
            processed.len() == 0 ==> cs == ce && start == 0,
            processed.len() > 0 ==> 0 <= last_end && last_end + 2 == start && b[last_end] == 10 && b[last_end + 1] == 10
                && (cs < ce ==> ce == last_end),
            chunk_start_ok(b, start as int),
        ensures
            max == max_chars as nat,
            b == text.spec_bytes(),
            start <= i <= n,
            i + 1 >= n,
            paragraphs(b) == processed + split_from(b, start as int, i as int),
            chunk_fold(processed, max).0.len() == chunks@.len(),
            forall|k: int| 0 <= k < chunks@.len() ==> encode_utf8(#[trigger] chunks@[k]@) == chunk_fold(processed, max).0[k],
            chunk_fold(processed, max).1 == b.subrange(cs as int, ce as int),
            cs <= ce <= n,
            chunk_start_ok(b, cs as int),
            cs < ce ==> chunk_end_ok(b, ce as int),
            processed.len() == 0 ==> cs == ce && start == 0,
            processed.len() > 0 ==> 0 <= last_end && last_end + 2 == start && b[last_end] == 10 && b[last_end + 1] == 10
                && (cs < ce ==> ce == last_end),
            chunk_start_ok(b, start as int),
        decreases n - i,
    {
        if n - i <= 1 {
            break;
        }
        if bytes[i] == 10 && bytes[i + 1] == 10 {
            // The paragraph [start, i) ends here.
            let ghost p = b.subrange(start as int, i as int);
            let ghost st_src = processed;
            let ghost old_cs = cs as int;
            let ghost old_ce = ce as int;
            let ghost old_start = start;
            proof {
                assert(split_from(b, start as int, i as int) == seq![p] + split_from(b, i + 2, i + 2));
                assert(processed.push(p) + split_from(b, i + 2, i + 2) =~= processed + (seq![p] + split_from(b, i + 2, i + 2)));
                assert(processed.push(p).drop_last() =~= processed);
            }
            let p_len = i - start;
            let cur_len = ce - cs;
            if cur_len > 0 && (p_len > max_chars || cur_len > max_chars - p_len || max_chars - p_len - cur_len < 2) {
                chunks.push(substring(text, cs, ce));
                cs = start;
                ce = i;
            } else if cur_len > 0 {
                proof {
                    assert(b.subrange(cs as int, ce as int) + seq![10u8, 10u8] + p =~= b.subrange(cs as int, i as int));
                }
                ce = i;
            } else {
                cs = start;
                ce = i;
            }
            proof {
                let st = chunk_fold(processed, max);
                processed = processed.push(p);
                last_end = i as int;
                assert(processed.drop_last() =~= st_src);
                assert(processed.last() == p);
                assert(chunk_fold(processed, max) == chunk_step(st, p, max));
                assert(st.1.len() == old_ce - old_cs);
                assert(p.len() == i - (old_start as int));
                if st.1.len() + 2 + p.len() > max && st.1.len() > 0 {
                    assert(chunk_step(st, p, max).1 =~= p);
                    assert(cs == old_start && ce == i);
                } else if st.1.len() > 0 {
                    assert(chunk_step(st, p, max).1 =~= st.1 + seq![10u8, 10u8] + p);
                    assert(cs as int == old_cs && ce == i);
                    assert(old_ce + 2 == old_start);
                    assert(b.subrange(old_cs, old_ce) + seq![10u8, 10u8] + p =~= b.subrange(old_cs, i as int));
                } else {
                    assert(chunk_step(st, p, max).1 =~= p);
                    assert(cs == old_start && ce == i);
                }
                assert(chunk_fold(processed, max).1 =~= b.subrange(cs as int, ce as int));
            }
            start = i + 2;
            i = i + 2;
        } else {
            proof {
                assert(split_from(b, start as int, i as int) == split_from(b, start as int, i + 1));
            }
            i = i + 1;
        }
    }
    // The last paragraph runs to the end of the text.
    let ghost p = b.subrange(start as int, n as int);
    proof {
        assert(split_from(b, start as int, i as int) == seq![p]);
        assert(paragraphs(b) =~= processed.push(p));
        assert(processed.push(p).drop_last() =~= processed);
    }
    let p_len = n - start;
    let cur_len = ce - cs;
    if cur_len > 0 && (p_len > max_chars || cur_len > max_chars - p_len || max_chars - p_len - cur_len < 2) {
        chunks.push(substring(text, cs, ce));
        cs = start;
        ce = n;
    } else if cur_len > 0 {
        proof {
            assert(b.subrange(cs as int, ce as int) + seq![10u8, 10u8] + p =~= b.subrange(cs as int, n as int));
        }
        ce = n;
    } else {
        cs = start;
        ce = n;
    }
    proof {
        let st = chunk_fold(processed, max);
        let src = processed;
        processed = processed.push(p);
        assert(processed.drop_last() =~= src);
        assert(processed.last() == p);
        assert(chunk_fold(processed, max) == chunk_step(st, p, max));
        assert(chunk_fold(processed, max).1 =~= b.subrange(cs as int, ce as int));
    }
    if ce > cs {
        chunks.push(substring(text, cs, ce));
    }
    chunks
}


proof fn lemma_fold_sizes(ps: Seq<Seq<u8>>, max: nat)
    ensures
        forall|k: int|
            0 <= k < chunk_fold(ps, max).0.len() ==> {
                let c = #[trigger] chunk_fold(ps, max).0[k];
                c.len() > 0 && (c.len() <= max || ps.contains(c))
            },
        chunk_fold(ps, max).1.len() <= max || ps.contains(chunk_fold(ps, max).1),
    decreases ps.len(),
{
    if ps.len() > 0 {
        let t = ps.drop_last();
        lemma_fold_sizes(t, max);
        let st = chunk_fold(t, max);
        let p = ps.last();
        assert(ps.contains(p)) by {
            assert(ps[ps.len() - 1] == p);
        }
        assert forall|x: Seq<u8>| t.contains(x) implies ps.contains(x) by {
            let j = choose|j: int| 0 <= j < t.len() && t[j] == x;
            assert(ps[j] == x);
        }
        let closed = st.1.len() + 2 + p.len() > max && st.1.len() > 0;
        if closed {
            assert(chunk_fold(ps, max).1 =~= p);
            assert forall|k: int| 0 <= k < chunk_fold(ps, max).0.len() implies {
                let c = #[trigger] chunk_fold(ps, max).0[k];
                c.len() > 0 && (c.len() <= max || ps.contains(c))
            } by {
                if k < st.0.len() {
                    assert(chunk_fold(ps, max).0[k] == st.0[k]);
                } else {
                    assert(chunk_fold(ps, max).0[k] == st.1);
                }
            }
        } else if st.1.len() > 0 {
            assert(chunk_fold(ps, max).1 =~= st.1 + seq![10u8, 10u8] + p);
        } else {
            assert(chunk_fold(ps, max).1 =~= p);
        }
    }
}

/// Every chunk is non-empty, and has at most `max_chars` bytes unless it is
/// a single paragraph: a chunk only takes another paragraph while its own
/// length, the blank line and the paragraph's stay within `max_chars`.
pub proof fn law_chunk_sizes(b: Seq<u8>, max_chars: nat)
    ensures
        forall|k: int|
            0 <= k < chunk_bytes(b, max_chars).len() ==> {
                let c = #[trigger] chunk_bytes(b, max_chars)[k];
                c.len() > 0 && (c.len() <= max_chars || paragraphs(b).contains(c))
            },
{
    let ps = paragraphs(b);
    lemma_fold_sizes(ps, max_chars);
    let st = chunk_fold(ps, max_chars);
    assert forall|k: int| 0 <= k < chunk_bytes(b, max_chars).len() implies {
        let c = #[trigger] chunk_bytes(b, max_chars)[k];
        c.len() > 0 && (c.len() <= max_chars || paragraphs(b).contains(c))
    } by {
        if k < st.0.len() {
            assert(chunk_bytes(b, max_chars)[k] == st.0[k]);
        }
    }
}
/// `parts` joined with a blank line (`"\n\n"`) between consecutive parts.
pub open spec fn join_blank(parts: Seq<Seq<u8>>) -> Seq<u8>
    decreases parts.len(),
{
    if parts.len() == 0 {
        Seq::empty()
    } else if parts.len() == 1 {
        parts[0]
    } else {
        parts[0] + seq![10u8, 10u8] + join_blank(parts.drop_first())
    }
}

proof fn lemma_join_push(s: Seq<Seq<u8>>, x: Seq<u8>)
    requires
        s.len() > 0,
    ensures
        join_blank(s.push(x)) == join_blank(s) + seq![10u8, 10u8] + x,
    decreases s.len(),
{
    if s.len() == 1 {
        assert(s.push(x).drop_first() =~= seq![x]);
        assert(join_blank(seq![x]) == x);
    } else {
        assert(s.push(x).drop_first() =~= s.drop_first().push(x));
        lemma_join_push(s.drop_first(), x);
        assert(join_blank(s.push(x)) =~= join_blank(s) + seq![10u8, 10u8] + x);
    }
}

proof fn lemma_split_join(b: Seq<u8>, start: int, i: int)
    requires
        0 <= start <= i <= b.len(),
    ensures
        join_blank(split_from(b, start, i)) == b.subrange(start, b.len() as int),
        split_from(b, start, i).len() >= 1,
    decreases b.len() - i,
{
    if i + 1 >= b.len() || i < 0 {
    } else if b[i] == 10 && b[i + 1] == 10 {
        lemma_split_join(b, i + 2, i + 2);
        let rest = split_from(b, i + 2, i + 2);
        let s = seq![b.subrange(start, i)] + rest;
        assert(s.drop_first() =~= rest);
        assert(s[0] == b.subrange(start, i));
        assert(b.subrange(start, i) + seq![10u8, 10u8] + b.subrange(i + 2, b.len() as int) =~= b.subrange(start, b.len() as int));
    } else {
        lemma_split_join(b, start, i + 1);
    }
}

proof fn lemma_fold_join(ps: Seq<Seq<u8>>, max: nat)
    requires
        ps.len() > 0,
        forall|k: int| 0 <= k < ps.len() ==> (#[trigger] ps[k]).len() > 0,
    ensures
        chunk_fold(ps, max).1.len() > 0,
        join_blank(chunk_fold(ps, max).0.push(chunk_fold(ps, max).1)) == join_blank(ps),
    decreases ps.len(),
{
    let t = ps.drop_last();
    let p = ps.last();
    assert(p.len() > 0) by {
        assert(ps[ps.len() - 1] == p);
    }
    assert(chunk_fold(ps, max) == chunk_step(chunk_fold(t, max), p, max));
    if t.len() == 0 {
        assert(chunk_fold(t, max) == (Seq::<Seq<u8>>::empty(), Seq::<u8>::empty()));
        assert(chunk_fold(ps, max).0 =~= Seq::<Seq<u8>>::empty());
        assert(chunk_fold(ps, max).1 =~= p);
        assert(Seq::<Seq<u8>>::empty().push(p) =~= ps);
    } else {
        assert forall|k: int| 0 <= k < t.len() implies (#[trigger] t[k]).len() > 0 by {
            assert(t[k] == ps[k]);
        }
        lemma_fold_join(t, max);
        let st = chunk_fold(t, max);
        assert(ps =~= t.push(p));
        lemma_join_push(t, p);
        let sep = seq![10u8, 10u8];
        if st.1.len() + 2 + p.len() > max {
            assert(chunk_fold(ps, max).0 =~= st.0.push(st.1));
            assert(chunk_fold(ps, max).1 =~= p);
            lemma_join_push(st.0.push(st.1), p);
        } else {
            assert(chunk_fold(ps, max).0 =~= st.0);
            assert(chunk_fold(ps, max).1 =~= st.1 + sep + p);
            if st.0.len() == 0 {
                assert(st.0.push(st.1 + sep + p) =~= seq![st.1 + sep + p]);
                assert(st.0.push(st.1) =~= seq![st.1]);
            } else {
                lemma_join_push(st.0, st.1 + sep + p);
                lemma_join_push(st.0, st.1);
                assert(join_blank(st.0) + sep + (st.1 + sep + p) =~= join_blank(st.0) + sep + st.1 + sep + p);
            }
        }
    }
}

/// Joining the chunks with blank lines gives the text back, when no
/// paragraph of the text is empty (empty paragraphs met at the start of a
/// chunk are dropped, with their blank line).
pub proof fn law_chunks_join(b: Seq<u8>, max_chars: nat)
    requires
        forall|k: int| 0 <= k < paragraphs(b).len() ==> (#[trigger] paragraphs(b)[k]).len() > 0,
    ensures
        join_blank(chunk_bytes(b, max_chars)) == b,
{
    lemma_split_join(b, 0, 0);
    lemma_fold_join(paragraphs(b), max_chars);
    assert(b.subrange(0, b.len() as int) =~= b);
}

proof fn lemma_fold_maximal(ps: Seq<Seq<u8>>, max: nat)
    ensures
        forall|k: int|
            0 <= k < chunk_fold(ps, max).0.len() - 1 ==> #[trigger] chunk_fold(ps, max).0[k].len() + 2 + chunk_fold(ps, max).0[k + 1].len() > max,
        chunk_fold(ps, max).0.len() > 0 ==> chunk_fold(ps, max).0.last().len() + 2 + chunk_fold(ps, max).1.len() > max,
    decreases ps.len(),
{
    if ps.len() > 0 {
        let t = ps.drop_last();
        let p = ps.last();
        lemma_fold_maximal(t, max);
        let st = chunk_fold(t, max);
        let nx = chunk_fold(ps, max);
        assert(nx == chunk_step(st, p, max));
        if st.1.len() + 2 + p.len() > max && st.1.len() > 0 {
            assert(nx.0 =~= st.0.push(st.1));
            assert(nx.1 =~= p);
            assert forall|k: int| 0 <= k < nx.0.len() - 1 implies #[trigger] nx.0[k].len() + 2 + nx.0[k + 1].len() > max by {
                if k < st.0.len() - 1 {
                    assert(nx.0[k] == st.0[k]);
                    assert(nx.0[k + 1] == st.0[k + 1]);
                } else {
                    assert(nx.0[k] == st.0.last());
                    assert(nx.0[k + 1] == st.1);
                }
            }
        } else {
            assert(nx.0 =~= st.0);
            assert(nx.1.len() >= st.1.len());
        }
    }
}

/// Chunks are as large as they may be: no two neighbouring chunks could have
/// been one, since the first paragraph of a chunk, with the blank line before
/// it, did not fit into the chunk before it (and a chunk holds at least its
/// first paragraph).
pub proof fn law_chunks_maximal(b: Seq<u8>, max_chars: nat)
    ensures
        forall|k: int|
            0 <= k < chunk_bytes(b, max_chars).len() - 1 ==> #[trigger] chunk_bytes(b, max_chars)[k].len() + 2
                + chunk_bytes(b, max_chars)[k + 1].len() > max_chars,
{
    let ps = paragraphs(b);
    lemma_fold_maximal(ps, max_chars);
    let st = chunk_fold(ps, max_chars);
    let cs = chunk_bytes(b, max_chars);
    assert forall|k: int| 0 <= k < cs.len() - 1 implies #[trigger] cs[k].len() + 2 + cs[k + 1].len() > max_chars by {
        if st.1.len() > 0 {
            assert(cs =~= st.0.push(st.1));
            if k < st.0.len() - 1 {
                assert(cs[k] == st.0[k]);
                assert(cs[k + 1] == st.0[k + 1]);
            } else {
                assert(cs[k] == st.0.last());
                assert(cs[k + 1] == st.1);
            }
        } else {
            assert(cs == st.0);
        }
    }
}

/// While the paragraphs read so far, joined by blank lines, fit in `max`,
/// no chunk has been closed and the open chunk is no longer than they are.
proof fn lemma_fold_fits(ps: Seq<Seq<u8>>, max: nat)
    requires
        join_blank(ps).len() <= max,
    ensures
        chunk_fold(ps, max).0.len() == 0,
        chunk_fold(ps, max).1.len() <= join_blank(ps).len(),
    decreases ps.len(),
{
    if ps.len() > 0 {
        let t = ps.drop_last();
        let p = ps.last();
        assert(ps =~= t.push(p));
        assert(chunk_fold(ps, max) == chunk_step(chunk_fold(t, max), p, max));
        if t.len() == 0 {
            assert(ps =~= seq![p]);
            assert(join_blank(ps) == p);
            assert(chunk_fold(t, max) == (Seq::<Seq<u8>>::empty(), Seq::<u8>::empty()));
        } else {
            lemma_join_push(t, p);
            lemma_fold_fits(t, max);
        }
    }
}

/// A text that fits in `max_chars` bytes is one chunk: at most one chunk
/// comes back, and when no paragraph is empty it is the whole text.
pub proof fn law_short_text_one_chunk(b: Seq<u8>, max_chars: nat)
    requires
        b.len() <= max_chars,
    ensures
        chunk_bytes(b, max_chars).len() <= 1,
        b.len() > 0 && (forall|k: int| 0 <= k < paragraphs(b).len() ==> (#[trigger] paragraphs(b)[k]).len() > 0)
            ==> chunk_bytes(b, max_chars) == seq![b],
{
    lemma_split_join(b, 0, 0);
    assert(b.subrange(0, b.len() as int) =~= b);
    lemma_fold_fits(paragraphs(b), max_chars);
    let cs = chunk_bytes(b, max_chars);
    if b.len() > 0 && (forall|k: int| 0 <= k < paragraphs(b).len() ==> (#[trigger] paragraphs(b)[k]).len() > 0) {
        law_chunks_join(b, max_chars);
        if cs.len() == 0 {
            assert(join_blank(cs).len() == 0);
        } else {
            assert(join_blank(cs) == cs[0]);
            assert(cs =~= seq![b]);
        }
    }
}

} // verus!
