//! What the reasoning parser promises of a whole stream: how a reply is cut into chunks makes
//! no difference, nothing but the tags is lost, and no tag leaks.

use vstd::prelude::*;

use crate::text::{contains, ends_with, find, find_from, occurs_at};
use crate::text::{lemma_contains_is_find, lemma_find_from, lemma_find_from_is};
use crate::text::{lemma_find_from_none, lemma_find_skip};
use crate::thinking::{closing_tag, held_len, partial_len, piece, scan, toggled, waiting};
use crate::thinking::{lemma_partial_len, lemma_tags};
use crate::thinking::{ParserState, Scan};

verus! {

/// Every character of `text`, marked with the kind of text that it belongs to.
pub open spec fn marked(state: ParserState, text: Seq<char>) -> Seq<(ParserState, char)> {
    Seq::new(text.len(), |i: int| (state, text[i]))
}

/// All characters of a list of pieces, in order, each with its kind. Two lists that differ
/// only in where a piece is cut in two say the same.
pub open spec fn labelled(pieces: Seq<(ParserState, Seq<char>)>) -> Seq<(ParserState, char)>
    decreases pieces.len(),
{
    if pieces.len() == 0 {
        seq![]
    } else {
        marked(pieces[0].0, pieces[0].1) + labelled(pieces.skip(1))
    }
}

/// What a parser gives out over a list of chunks, one call after the other.
pub open spec fn run(state: ParserState, pending: Seq<char>, chunks: Seq<Seq<char>>) -> Scan
    decreases chunks.len(),
{
    if chunks.len() == 0 {
        Scan { pieces: seq![], state, pending }
    } else {
        let first = scan(state, pending + chunks[0]);
        let rest = run(first.state, first.pending, chunks.skip(1));
        Scan { pieces: first.pieces + rest.pieces, state: rest.state, pending: rest.pending }
    }
}

/// The chunks, one behind the other.
pub open spec fn joined(chunks: Seq<Seq<char>>) -> Seq<char>
    decreases chunks.len(),
{
    if chunks.len() == 0 {
        seq![]
    } else {
        chunks[0] + joined(chunks.skip(1))
    }
}

/// The blocks of a complete reply: the text between one tag and the next, with its kind.
pub open spec fn blocks(state: ParserState, text: Seq<char>) -> Seq<(ParserState, Seq<char>)>
    decreases text.len(),
{
    proof {
        lemma_tags();
        lemma_find_from(text, closing_tag(state), 0);
    }
    let tag = closing_tag(state);
    match find(text, tag) {
        Some(at) => seq![(state, text.take(at))] + blocks(
            toggled(state),
            text.skip(at + tag.len()),
        ),
        None => seq![(state, text)],
    }
}

/// A reply written out of its blocks, with the closing tag behind each but the last.
pub open spec fn written(blocks: Seq<(ParserState, Seq<char>)>) -> Seq<char>
    decreases blocks.len(),
{
    if blocks.len() == 0 {
        seq![]
    } else if blocks.len() == 1 {
        blocks[0].1
    } else {
        blocks[0].1 + closing_tag(blocks[0].0) + written(blocks.skip(1))
    }
}

proof fn lemma_labelled_add(a: Seq<(ParserState, Seq<char>)>, b: Seq<(ParserState, Seq<char>)>)
    ensures
        labelled(a + b) == labelled(a) + labelled(b),
    decreases a.len(),
{
    if a.len() == 0 {
        assert(a + b =~= b);
        assert(labelled(a) + labelled(b) =~= labelled(b));
    } else {
        lemma_labelled_add(a.skip(1), b);
        assert((a + b).skip(1) =~= a.skip(1) + b);
        assert((a + b)[0] == a[0]);
        assert(labelled(a + b) =~= labelled(a) + labelled(b));
    }
}

proof fn lemma_labelled_piece(state: ParserState, text: Seq<char>)
    ensures
        labelled(piece(state, text)) == marked(state, text),
        labelled(seq![(state, text)]) == marked(state, text),
{
    let one = seq![(state, text)];
    assert(one.skip(1) =~= Seq::<(ParserState, Seq<char>)>::empty());
    assert(labelled(one.skip(1)) =~= Seq::<(ParserState, char)>::empty());
    assert(labelled(one) =~= marked(state, text));
    assert(labelled(piece(state, text)) =~= marked(state, text));
}

proof fn lemma_marked_add(state: ParserState, a: Seq<char>, b: Seq<char>)
    ensures
        marked(state, a + b) == marked(state, a) + marked(state, b),
{
    assert(marked(state, a + b) =~= marked(state, a) + marked(state, b));
}

/// An occurrence that ends within `a` is not touched by what follows `a`.
proof fn lemma_occurs_at_add(a: Seq<char>, b: Seq<char>, pattern: Seq<char>, at: int)
    requires
        at + pattern.len() <= a.len(),
    ensures
        occurs_at(a + b, pattern, at) == occurs_at(a, pattern, at),
{
    if 0 <= at {
        assert((a + b).subrange(at, at + pattern.len()) =~= a.subrange(at, at + pattern.len()));
    }
}

/// If `tag.take(k)`, or all of the tag, reaches from within `a` over its end, then an end of
/// `a` begins the tag.
proof fn lemma_crossing(a: Seq<char>, b: Seq<char>, tag: Seq<char>, at: int, k: int)
    requires
        0 <= at < a.len(),
        0 <= k <= tag.len(),
        a.len() <= at + k,
        occurs_at(a + b, tag.take(k), at),
    ensures
        ends_with(a, tag.take(a.len() - at)),
{
    let m = a.len() - at;
    let found = (a + b).subrange(at, at + k);
    assert(found =~= tag.take(k));
    assert forall|i: int| 0 <= i < m implies a.subrange(at, a.len() as int)[i] == tag.take(m)[i] by {
        assert(found[i] == tag.take(k)[i]);
    }
    assert(a.subrange(at, a.len() as int) =~= tag.take(m));
}

proof fn lemma_partial_len_eq(x: Seq<char>, y: Seq<char>, tag: Seq<char>, longest: nat)
    requires
        forall|k: int| 0 <= k <= longest ==> ends_with(x, tag.take(k)) == ends_with(y, tag.take(k)),
    ensures
        partial_len(x, tag, longest) == partial_len(y, tag, longest),
    decreases longest,
{
    if longest > 0 && !ends_with(x, tag.take(longest as int)) {
        assert(ends_with(x, tag.take(longest as int)) == ends_with(y, tag.take(longest as int)));
        lemma_partial_len_eq(x, y, tag, (longest - 1) as nat);
    } else if longest > 0 {
        assert(ends_with(x, tag.take(longest as int)) == ends_with(y, tag.take(longest as int)));
    }
}

/// Where `a` holds no tag, searching `a + b` is searching what is held back of `a`, then `b`.
proof fn lemma_find_behind_held(state: ParserState, a: Seq<char>, b: Seq<char>)
    requires
        find(a, closing_tag(state)) is None,
    ensures
        ({
            let tag = closing_tag(state);
            let n = a.len() - held_len(a, tag);
            let behind = a.skip(n) + b;
            &&& 0 <= n <= a.len()
            &&& a + b == a.take(n) + behind
            &&& match find(behind, tag) {
                Some(at) => find(a + b, tag) == Some(n + at),
                None => find(a + b, tag) is None,
            }
            &&& held_len(a + b, tag) == held_len(behind, tag)
        }),
{
    let tag = closing_tag(state);
    let h = held_len(a, tag);
    let n = a.len() - h;
    let behind = a.skip(n) + b;
    lemma_tags();
    lemma_partial_len(a, tag, (tag.len() - 1) as nat);
    lemma_find_from(a, tag, 0);
    assert(a + b =~= a.take(n) + behind);
    assert((a + b).skip(n) =~= behind);
    assert forall|j: int| 0 <= j < n implies !occurs_at(a + b, tag, j) by {
        if j + tag.len() <= a.len() {
            lemma_occurs_at_add(a, b, tag, j);
        } else if occurs_at(a + b, tag, j) {
            assert(tag.take(tag.len() as int) =~= tag);
            lemma_crossing(a, b, tag, j, tag.len() as int);
        }
    }
    lemma_find_skip(a + b, tag, n);
    lemma_find_from(a + b, tag, n);
    match find_from(a + b, tag, n) {
        Some(at) => {
            lemma_find_from_is(a + b, tag, 0, at);
        },
        None => {
            lemma_find_from_none(a + b, tag, 0);
        },
    }
    assert forall|k: int| 0 <= k <= tag.len() - 1 implies ends_with(a + b, tag.take(k))
        == ends_with(behind, tag.take(k)) by {
        let at = (a + b).len() - k;
        if k <= behind.len() {
            assert((a + b).subrange(at, at + k) =~= behind.subrange(behind.len() - k, behind.len() as int));
        } else if ends_with(a + b, tag.take(k)) {
            lemma_crossing(a, b, tag, at, k);
        }
    }
    lemma_partial_len_eq(a + b, behind, tag, (tag.len() - 1) as nat);
}

/// What two texts hold in common before their first tag.
proof fn lemma_scan_tag(state: ParserState, text: Seq<char>, at: int)
    requires
        find(text, closing_tag(state)) == Some(at),
    ensures
        ({
            let rest = scan(toggled(state), text.skip(at + closing_tag(state).len()));
            let all = scan(state, text);
            &&& labelled(all.pieces) == marked(state, text.take(at)) + labelled(rest.pieces)
            &&& all.state == rest.state
            &&& all.pending == rest.pending
        }),
{
    let rest = scan(toggled(state), text.skip(at + closing_tag(state).len()));
    lemma_labelled_add(piece(state, text.take(at)), rest.pieces);
    lemma_labelled_piece(state, text.take(at));
}

/// What reading a text without a tag gives.
proof fn lemma_scan_no_tag(state: ParserState, text: Seq<char>)
    requires
        find(text, closing_tag(state)) is None,
    ensures
        ({
            let emit = text.len() - held_len(text, closing_tag(state));
            let all = scan(state, text);
            &&& 0 <= emit <= text.len()
            &&& labelled(all.pieces) == marked(state, text.take(emit))
            &&& all.state == state
            &&& all.pending == text.skip(emit)
        }),
{
    let tag = closing_tag(state);
    lemma_tags();
    lemma_partial_len(text, tag, (tag.len() - 1) as nat);
    lemma_labelled_piece(state, text.take(text.len() - held_len(text, tag)));
}

/// The first tag of `a` is the first tag of `a + b`.
proof fn lemma_first_tag_stays(state: ParserState, a: Seq<char>, b: Seq<char>, at: int)
    requires
        find(a, closing_tag(state)) == Some(at),
    ensures
        0 <= at,
        at + closing_tag(state).len() <= a.len(),
        find(a + b, closing_tag(state)) == Some(at),
{
    let tag = closing_tag(state);
    lemma_find_from(a, tag, 0);
    lemma_occurs_at_add(a, b, tag, at);
    assert forall|j: int| 0 <= j < at implies !occurs_at(a + b, tag, j) by {
        lemma_occurs_at_add(a, b, tag, j);
        assert(!occurs_at(a, tag, j));
    }
    lemma_find_from_is(a + b, tag, 0, at);
}

/// Where `a` holds no tag, but what is held back of it and `b` do.
proof fn lemma_tag_behind_held(state: ParserState, a: Seq<char>, b: Seq<char>)
    requires
        find(a, closing_tag(state)) is None,
        find(scan(state, a).pending + b, closing_tag(state)) is Some,
    ensures
        same_reading(state, a, b),
{
    let tag = closing_tag(state);
    lemma_find_behind_held(state, a, b);
    lemma_scan_no_tag(state, a);
    let n = a.len() - held_len(a, tag);
    let behind = a.skip(n) + b;
    let at = find(behind, tag).unwrap();
    lemma_find_from(behind, tag, 0);
    lemma_scan_tag(state, behind, at);
    lemma_scan_tag(state, a + b, n + at);
    assert((a + b).take(n + at) =~= a.take(n) + behind.take(at));
    assert((a + b).skip(n + at + tag.len()) =~= behind.skip(at + tag.len()));
    lemma_marked_add(state, a.take(n), behind.take(at));
    let rest = labelled(scan(toggled(state), behind.skip(at + tag.len())).pieces);
    assert(marked(state, a.take(n)) + marked(state, behind.take(at)) + rest =~= marked(
        state,
        a.take(n),
    ) + (marked(state, behind.take(at)) + rest));
}

/// Where neither `a`, nor what is held back of it and `b`, hold a tag.
proof fn lemma_no_tag_behind_held(state: ParserState, a: Seq<char>, b: Seq<char>)
    requires
        find(a, closing_tag(state)) is None,
        find(scan(state, a).pending + b, closing_tag(state)) is None,
    ensures
        same_reading(state, a, b),
{
    let tag = closing_tag(state);
    lemma_find_behind_held(state, a, b);
    lemma_scan_no_tag(state, a);
    let n = a.len() - held_len(a, tag);
    let behind = a.skip(n) + b;
    lemma_scan_no_tag(state, behind);
    lemma_scan_no_tag(state, a + b);
    let m = behind.len() - held_len(behind, tag);
    assert((a + b).take(n + m) =~= a.take(n) + behind.take(m));
    assert((a + b).skip(n + m) =~= behind.skip(m));
    lemma_marked_add(state, a.take(n), behind.take(m));
}

/// Reading `a + b` at once comes to the same as reading `a` and then `b`: the same characters
/// of the same kinds in the same order, the same state afterwards, the same text held back.
pub open spec fn same_reading(state: ParserState, a: Seq<char>, b: Seq<char>) -> bool {
    let first = scan(state, a);
    let second = scan(first.state, first.pending + b);
    let whole = scan(state, a + b);
    &&& labelled(whole.pieces) == labelled(first.pieces) + labelled(second.pieces)
    &&& whole.state == second.state
    &&& whole.pending == second.pending
}

/// It makes no difference whether a text comes in one chunk or in two.
pub proof fn law_chunks_do_not_matter(state: ParserState, a: Seq<char>, b: Seq<char>)
    ensures
        same_reading(state, a, b),
    decreases a.len(),
{
    let tag = closing_tag(state);
    match find(a, tag) {
        Some(at) => {
            let next = at + tag.len();
            assert(0 < tag.len()) by {
                lemma_tags();
            }
            lemma_first_tag_stays(state, a, b, at);
            lemma_scan_tag(state, a, at);
            lemma_scan_tag(state, a + b, at);
            assert((a + b).take(at) =~= a.take(at));
            assert((a + b).skip(next) =~= a.skip(next) + b);
            law_chunks_do_not_matter(toggled(state), a.skip(next), b);
            let rest = scan(toggled(state), a.skip(next));
            let second = scan(rest.state, rest.pending + b);
            assert(marked(state, a.take(at)) + labelled(rest.pieces) + labelled(second.pieces) =~= marked(
                state,
                a.take(at),
            ) + (labelled(rest.pieces) + labelled(second.pieces)));
        },
        None => {
            if find(scan(state, a).pending + b, tag) is Some {
                lemma_tag_behind_held(state, a, b);
            } else {
                lemma_no_tag_behind_held(state, a, b);
            }
        },
    }
}

/// Reading what is held back, and nothing more, finishes nothing.
proof fn lemma_scan_waiting(state: ParserState, pending: Seq<char>)
    requires
        waiting(state, pending),
    ensures
        scan(state, pending) == (Scan { pieces: seq![], state, pending }),
{
    let tag = closing_tag(state);
    lemma_find_from(pending, tag, 0);
    lemma_partial_len(pending, tag, (tag.len() - 1) as nat);
    assert(pending.subrange(0, pending.len() as int) =~= tag.take(pending.len() as int));
    assert(ends_with(pending, tag.take(pending.len() as int)));
    let held = held_len(pending, tag);
    assert(held <= pending.len()) by {
        assert(ends_with(pending, tag.take(held as int)));
    }
    assert(pending.skip(0) =~= pending);
}

/// Reading always leaves the parser waiting for a tag.
proof fn lemma_scan_waits(state: ParserState, text: Seq<char>)
    ensures
        waiting(scan(state, text).state, scan(state, text).pending),
    decreases text.len(),
{
    let tag = closing_tag(state);
    lemma_tags();
    lemma_find_from(text, tag, 0);
    match find(text, tag) {
        Some(at) => {
            lemma_scan_waits(toggled(state), text.skip(at + tag.len()));
        },
        None => {
            lemma_partial_len(text, tag, (tag.len() - 1) as nat);
            let held = held_len(text, tag);
            assert(text.skip(text.len() - held) =~= tag.take(held as int));
        },
    }
}

/// It makes no difference into how many chunks a text is cut, nor where.
pub proof fn law_any_chunks(state: ParserState, pending: Seq<char>, chunks: Seq<Seq<char>>)
    requires
        waiting(state, pending),
    ensures
        ({
            let streamed = run(state, pending, chunks);
            let whole = scan(state, pending + joined(chunks));
            &&& labelled(streamed.pieces) == labelled(whole.pieces)
            &&& streamed.state == whole.state
            &&& streamed.pending == whole.pending
            &&& waiting(streamed.state, streamed.pending)
        }),
    decreases chunks.len(),
{
    if chunks.len() == 0 {
        assert(pending + joined(chunks) =~= pending);
        lemma_scan_waiting(state, pending);
    } else {
        let text = pending + chunks[0];
        let first = scan(state, text);
        let behind = joined(chunks.skip(1));
        lemma_scan_waits(state, text);
        law_any_chunks(first.state, first.pending, chunks.skip(1));
        law_chunks_do_not_matter(state, text, behind);
        assert(pending + joined(chunks) =~= text + behind);
        lemma_labelled_add(first.pieces, run(first.state, first.pending, chunks.skip(1)).pieces);
    }
}

/// Reading a text and flushing gives out the text of its blocks.
proof fn lemma_scan_and_flush(state: ParserState, text: Seq<char>)
    ensures
        ({
            let all = scan(state, text);
            labelled(all.pieces + piece(all.state, all.pending)) == labelled(blocks(state, text))
        }),
    decreases text.len(),
{
    let tag = closing_tag(state);
    let all = scan(state, text);
    lemma_labelled_add(all.pieces, piece(all.state, all.pending));
    lemma_labelled_piece(all.state, all.pending);
    match find(text, tag) {
        Some(at) => {
            assert(0 < tag.len()) by {
                lemma_tags();
            }
            lemma_find_from(text, tag, 0);
            let behind = text.skip(at + tag.len());
            let rest = scan(toggled(state), behind);
            lemma_scan_and_flush(toggled(state), behind);
            lemma_labelled_add(rest.pieces, piece(rest.state, rest.pending));
            lemma_scan_tag(state, text, at);
            let one = seq![(state, text.take(at))];
            lemma_labelled_add(one, blocks(toggled(state), behind));
            lemma_labelled_piece(state, text.take(at));
            assert(marked(state, text.take(at)) + labelled(rest.pieces) + marked(
                all.state,
                all.pending,
            ) =~= marked(state, text.take(at)) + (labelled(rest.pieces) + marked(
                all.state,
                all.pending,
            )));
        },
        None => {
            lemma_scan_no_tag(state, text);
            let emit = text.len() - held_len(text, tag);
            assert(text.take(emit) + text.skip(emit) =~= text);
            lemma_marked_add(state, text.take(emit), text.skip(emit));
            lemma_labelled_piece(state, text);
        },
    }
}

/// A reply that came in any number of chunks and was flushed at its end has come out
/// complete: all characters of its blocks, in order, each with the kind of its block.
pub proof fn law_stream_is_complete(chunks: Seq<Seq<char>>)
    ensures
        ({
            let streamed = run(ParserState::Factual, seq![], chunks);
            labelled(streamed.pieces + piece(streamed.state, streamed.pending)) == labelled(
                blocks(ParserState::Factual, joined(chunks)),
            )
        }),
{
    let streamed = run(ParserState::Factual, seq![], chunks);
    let text = joined(chunks);
    let whole = scan(ParserState::Factual, text);
    lemma_tags();
    assert(closing_tag(ParserState::Factual).take(0) =~= Seq::<char>::empty());
    law_any_chunks(ParserState::Factual, seq![], chunks);
    assert(Seq::<char>::empty() + text =~= text);
    lemma_scan_and_flush(ParserState::Factual, text);
    lemma_labelled_add(streamed.pieces, piece(streamed.state, streamed.pending));
    lemma_labelled_add(whole.pieces, piece(whole.state, whole.pending));
}

/// The blocks of a reply, with the tags between them, are the reply: only tags are dropped.
pub proof fn law_only_tags_are_dropped(state: ParserState, text: Seq<char>)
    ensures
        written(blocks(state, text)) == text,
    decreases text.len(),
{
    let tag = closing_tag(state);
    match find(text, tag) {
        Some(at) => {
            assert(0 < tag.len()) by {
                lemma_tags();
            }
            lemma_find_from(text, tag, 0);
            let behind = text.skip(at + tag.len());
            let rest = blocks(toggled(state), behind);
            law_only_tags_are_dropped(toggled(state), behind);
            assert(rest.len() > 0);
            assert(blocks(state, text).skip(1) =~= rest);
            assert(text =~= text.take(at) + text.subrange(at, at + tag.len()) + behind);
        },
        None => {},
    }
}

/// No piece is empty, and none holds the tag that would have ended it.
pub proof fn law_no_tag_leaks(state: ParserState, text: Seq<char>, i: int)
    requires
        0 <= i < scan(state, text).pieces.len(),
    ensures
        ({
            let (kind, part) = scan(state, text).pieces[i];
            part.len() > 0 && !contains(part, closing_tag(kind))
        }),
    decreases text.len(),
{
    let tag = closing_tag(state);
    lemma_find_from(text, tag, 0);
    let end = match find(text, tag) {
        Some(at) => at,
        None => text.len() - held_len(text, tag),
    };
    assert(0 < tag.len()) by {
        lemma_tags();
    }
    lemma_partial_len(text, tag, (tag.len() - 1) as nat);
    let begin = text.take(end);
    if i == 0 && begin.len() > 0 {
        if contains(begin, tag) {
            let j = choose|j: int| occurs_at(begin, tag, j);
            assert(begin.subrange(j, j + tag.len()) =~= text.subrange(j, j + tag.len()));
            assert(occurs_at(text, tag, j));
        }
    } else {
        match find(text, tag) {
            Some(at) => {
                law_no_tag_leaks(
                    toggled(state),
                    text.skip(at + tag.len()),
                    i - piece(state, begin).len(),
                );
            },
            None => {},
        }
    }
}

/// All characters of a list of pieces are those of its pieces, each with the kind of its
/// piece: a single piece has its own, and two lists have theirs one after the other.
pub proof fn law_labels_are_those_of_the_pieces(
    state: ParserState,
    text: Seq<char>,
    a: Seq<(ParserState, Seq<char>)>,
    b: Seq<(ParserState, Seq<char>)>,
)
    ensures
        labelled(seq![]) == Seq::<(ParserState, char)>::empty(),
        labelled(seq![(state, text)]).len() == text.len(),
        forall|i: int|
            0 <= i < text.len() ==> #[trigger] labelled(seq![(state, text)])[i] == (
                state,
                text[i],
            ),
        labelled(a + b) == labelled(a) + labelled(b),
{
    lemma_labelled_piece(state, text);
    lemma_labelled_add(a, b);
}

/// A list of chunks is read chunk by chunk, each behind what was held back before it.
pub proof fn law_chunks_are_read_in_order(
    state: ParserState,
    pending: Seq<char>,
    chunk: Seq<char>,
    chunks: Seq<Seq<char>>,
)
    ensures
        ({
            let first = scan(state, pending + chunk);
            let rest = run(first.state, first.pending, chunks);
            let all = run(state, pending, seq![chunk] + chunks);
            &&& all.pieces == first.pieces + rest.pieces
            &&& all.state == rest.state
            &&& all.pending == rest.pending
            &&& joined(seq![chunk] + chunks) == chunk + joined(chunks)
            &&& joined(seq![]) == Seq::<char>::empty()
        }),
{
    assert((seq![chunk] + chunks).skip(1) =~= chunks);
}

/// The first tag in a text that ends with it, where no tag was complete before.
proof fn lemma_first_tag_at(state: ParserState, a: Seq<char>, b: Seq<char>)
    requires
        !contains(a + closing_tag(state).drop_last(), closing_tag(state)),
    ensures
        find(a + closing_tag(state) + b, closing_tag(state)) == Some(a.len() as int),
{
    let tag = closing_tag(state);
    let text = a + tag + b;
    let begun = a + tag.drop_last();
    lemma_tags();
    assert(text.subrange(a.len() as int, a.len() + tag.len() as int) =~= tag);
    assert(occurs_at(text, tag, a.len() as int));
    assert forall|j: int| 0 <= j < a.len() implies !occurs_at(text, tag, j) by {
        if occurs_at(text, tag, j) {
            assert(text.subrange(j, j + tag.len()) =~= begun.subrange(j, j + tag.len()));
            assert(occurs_at(begun, tag, j));
        }
    }
    lemma_find_from_is(text, tag, 0, a.len() as int);
}

/// Factual text ends at `<|think|>`: what stands before is factual, what stands behind is read
/// as reasoning, and the tag itself is in neither.
pub proof fn law_reasoning_begins_at_its_tag(a: Seq<char>, b: Seq<char>)
    requires
        !contains(a + "<|think|"@, "<|think|>"@),
    ensures
        ({
            let all = scan(ParserState::Factual, a + "<|think|>"@ + b);
            let behind = scan(ParserState::Thinking, b);
            &&& labelled(all.pieces) == labelled(seq![(ParserState::Factual, a)]) + labelled(
                behind.pieces,
            )
            &&& a.len() > 0 ==> all.pieces == seq![(ParserState::Factual, a)] + behind.pieces
            &&& a.len() == 0 ==> all.pieces == behind.pieces
            &&& all.state == behind.state
            &&& all.pending == behind.pending
        }),
{
    let tag = "<|think|>"@;
    reveal_strlit("<|think|>");
    reveal_strlit("<|think|");
    lemma_tags();
    assert(tag.drop_last() =~= "<|think|"@);
    let before = ParserState::Factual;
    lemma_first_tag_at(ParserState::Factual, a, b);
    let text = a + tag + b;
    lemma_scan_tag(ParserState::Factual, text, a.len() as int);
    assert(text.take(a.len() as int) =~= a);
    assert(text.skip((a.len() + tag.len()) as int) =~= b);
    if a.len() == 0 {
        assert(Seq::<(ParserState, Seq<char>)>::empty() + scan(
            toggled(before),
            b,
        ).pieces =~= scan(toggled(before), b).pieces);
    }
    lemma_labelled_piece(ParserState::Factual, a);
}

/// Reasoning ends at `</|think|>`: what stands before is reasoning, what stands behind is read
/// as factual text, and the tag itself is in neither.
pub proof fn law_reasoning_ends_at_its_tag(a: Seq<char>, b: Seq<char>)
    requires
        !contains(a + "</|think|"@, "</|think|>"@),
    ensures
        ({
            let all = scan(ParserState::Thinking, a + "</|think|>"@ + b);
            let behind = scan(ParserState::Factual, b);
            &&& labelled(all.pieces) == labelled(seq![(ParserState::Thinking, a)]) + labelled(
                behind.pieces,
            )
            &&& a.len() > 0 ==> all.pieces == seq![(ParserState::Thinking, a)] + behind.pieces
            &&& a.len() == 0 ==> all.pieces == behind.pieces
            &&& all.state == behind.state
            &&& all.pending == behind.pending
        }),
{
    let tag = "</|think|>"@;
    reveal_strlit("</|think|>");
    reveal_strlit("</|think|");
    lemma_tags();
    assert(tag.drop_last() =~= "</|think|"@);
    let before = ParserState::Thinking;
    lemma_first_tag_at(ParserState::Thinking, a, b);
    let text = a + tag + b;
    lemma_scan_tag(ParserState::Thinking, text, a.len() as int);
    assert(text.take(a.len() as int) =~= a);
    assert(text.skip((a.len() + tag.len()) as int) =~= b);
    if a.len() == 0 {
        assert(Seq::<(ParserState, Seq<char>)>::empty() + scan(
            toggled(before),
            b,
        ).pieces =~= scan(toggled(before), b).pieces);
    }
    lemma_labelled_piece(ParserState::Thinking, a);
}

/// Text in which the tag that would end it does not occur stays what it is: all of it is given
/// out with its kind but for an end that is held back, and the kind does not change.
pub proof fn law_text_without_its_tag_stays_what_it_is(state: ParserState, text: Seq<char>)
    requires
        state == ParserState::Factual ==> !contains(text, "<|think|>"@),
        state == ParserState::Thinking ==> !contains(text, "</|think|>"@),
    ensures
        ({
            let all = scan(state, text);
            &&& all.state == state
            &&& labelled(all.pieces) + labelled(seq![(state, all.pending)]) == labelled(
                seq![(state, text)],
            )
            &&& all.pieces.len() <= 1
        }),
{
    lemma_contains_is_find(text, closing_tag(state));
    lemma_scan_no_tag(state, text);
    let emit = text.len() - held_len(text, closing_tag(state));
    assert(text =~= text.take(emit) + text.skip(emit));
    lemma_marked_add(state, text.take(emit), text.skip(emit));
    lemma_labelled_piece(state, text.skip(emit));
    lemma_labelled_piece(state, text);
}

/// What is held back is never more than the beginning of the tag that would end the text, and
/// never all of it.
pub proof fn law_only_the_beginning_of_a_tag_is_held_back(state: ParserState, text: Seq<char>)
    ensures
        ({
            let all = scan(state, text);
            let held = all.pending;
            match all.state {
                ParserState::Factual => held.len() < 9 && held == "<|think|>"@.take(
                    held.len() as int,
                ),
                ParserState::Thinking => held.len() < 10 && held == "</|think|>"@.take(
                    held.len() as int,
                ),
            }
        }),
{
    lemma_scan_waits(state, text);
    lemma_tags();
}

/// A stream with reasoning in it comes out with its factual text and its reasoning told apart,
/// however it was cut into chunks.
pub proof fn law_streams_are_told_apart(
    chunks: Seq<Seq<char>>,
    a: Seq<char>,
    b: Seq<char>,
    c: Seq<char>,
)
    requires
        joined(chunks) == a + "<|think|>"@ + (b + "</|think|>"@ + c),
        !contains(a + "<|think|"@, "<|think|>"@),
        !contains(b + "</|think|"@, "</|think|>"@),
        !contains(c, "<|think|>"@),
    ensures
        ({
            let streamed = run(ParserState::Factual, seq![], chunks);
            labelled(streamed.pieces) + labelled(seq![(streamed.state, streamed.pending)])
                == labelled(seq![(ParserState::Factual, a)]) + labelled(
                seq![(ParserState::Thinking, b)],
            ) + labelled(seq![(ParserState::Factual, c)])
        }),
{
    let streamed = run(ParserState::Factual, seq![], chunks);
    let text = joined(chunks);
    let whole = scan(ParserState::Factual, text);
    lemma_tags();
    assert(closing_tag(ParserState::Factual).take(0) =~= Seq::<char>::empty());
    law_any_chunks(ParserState::Factual, seq![], chunks);
    assert(Seq::<char>::empty() + text =~= text);
    law_reasoning_begins_at_its_tag(a, b + "</|think|>"@ + c);
    law_reasoning_ends_at_its_tag(b, c);
    law_text_without_its_tag_stays_what_it_is(ParserState::Factual, c);
    let last = scan(ParserState::Factual, c);
    let x = labelled(seq![(ParserState::Factual, a)]);
    let y = labelled(seq![(ParserState::Thinking, b)]);
    let z = labelled(last.pieces);
    let held = labelled(seq![(ParserState::Factual, last.pending)]);
    assert(x + (y + z) + held =~= x + y + (z + held));
}

} // verus!
