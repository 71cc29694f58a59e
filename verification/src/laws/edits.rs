//! Laws of replacing spans of text.
use vstd::prelude::*;
use vstd::utf8::encode_utf8;
use vstd::utf8::is_char_boundary;
use vstd::utf8::valid_utf8;
use crate::replace::are_separate;
use crate::replace::follow_each_other;
use crate::replace::in_order;
use crate::replace::is_placed;
use crate::replace::last_first;
use crate::replace::lemma_place_for;
use crate::replace::lemma_place_for_unique;
use crate::replace::place_for;
use crate::replace::replaced;
use crate::replace::spliced;
use crate::replace::spliced_in_turn;
use crate::replace::woven;
use crate::replace::ReplacementView;

verus! {

/// Replacing separate spans changes nothing but those spans: the result is the
/// text with each span replaced where it stands, whatever the order in which
/// the replacements come.
pub proof fn only_the_spans_change(bytes: Seq<u8>, rs: Seq<ReplacementView>)
    requires
        valid_utf8(bytes),
        are_separate(bytes, rs),
    ensures
        replaced(bytes, rs) == Some(woven(bytes, in_order(rs), 0, bytes.len() as int)),
{
    let down = last_first(rs);
    lemma_last_first(bytes, rs);
    let n = bytes.len() as int;
    let nothing = Seq::<u8>::empty();
    vstd::utf8::is_char_boundary_start_end_of_seq(bytes);
    assert(bytes.take(n) + nothing =~= bytes);
    lemma_splice_down(bytes, down, n, nothing);
    assert(woven(bytes, down.reverse(), 0, n) + nothing =~= woven(bytes, down.reverse(), 0, n));
}

/// Sorting orders by falling starts.
pub open spec fn falls(rs: Seq<ReplacementView>) -> bool {
    forall|i: int, j: int|
        0 <= i <= j < rs.len() ==> (#[trigger] rs[i]).start >= (#[trigger] rs[j]).start
}

/// The replacements with a given start, in order.
pub open spec fn starting_at(rs: Seq<ReplacementView>, start: usize) -> Seq<ReplacementView> {
    rs.filter(|r: ReplacementView| r.start == start)
}

/// Putting the replacements in order loses and invents none, orders them by
/// falling starts, and keeps the order of those with one start.
pub proof fn last_first_sorts(rs: Seq<ReplacementView>)
    ensures
        falls(last_first(rs)),
        last_first(rs).to_multiset() == rs.to_multiset(),
        forall|start: usize| #[trigger]
            starting_at(last_first(rs), start) == starting_at(rs, start),
    decreases rs.len(),
{
    broadcast use vstd::seq_lib::group_to_multiset_ensures;

    if rs.len() > 0 {
        let init = rs.drop_last();
        last_first_sorts(init);
        let sorted = last_first(init);
        let at = place_for(sorted, rs.last().start);
        lemma_place_for(sorted, rs.last().start);
        let all = last_first(rs);
        assert forall|i: int, j: int| 0 <= i <= j < all.len() implies (#[trigger] all[i]).start >= (
        #[trigger] all[j]).start by {
            if i < at && at > 0 {
                assert(sorted[i].start >= sorted[at - 1].start);
            }
        }
        assert(sorted.insert(at, rs.last()).to_multiset() == sorted.to_multiset().insert(
            rs.last(),
        ));
        assert(init.push(rs.last()) =~= rs);
        assert(init.push(rs.last()).to_multiset() == init.to_multiset().insert(rs.last()));
        assert forall|start: usize| #[trigger]
            starting_at(last_first(rs), start) == starting_at(rs, start) by {
            let front = sorted.take(at);
            let back = sorted.skip(at);
            let one = seq![rs.last()];
            assert(all =~= front + one + back);
            assert(sorted =~= front + back);
            assert(rs =~= init + one);
            lemma_starting_at_concat(front + one, back, start);
            lemma_starting_at_concat(front, one, start);
            lemma_starting_at_concat(front, back, start);
            lemma_starting_at_concat(init, one, start);
            if start == rs.last().start {
                assert forall|i: int| 0 <= i < back.len() implies (#[trigger] back[i]).start
                    != start by {
                    assert(back[i] == sorted[at + i]);
                }
                lemma_starting_at_none(back, start);
                assert(starting_at(all, start) =~= starting_at(rs, start));
            } else {
                assert forall|i: int| 0 <= i < one.len() implies (#[trigger] one[i]).start
                    != start by {}
                lemma_starting_at_none(one, start);
                assert(starting_at(all, start) =~= starting_at(rs, start));
            }
        }
    } else {
        assert(last_first(rs) =~= rs);
    }
}

/// Separate replacements, once in order, follow each other, stay separate, and
/// are the same ones.
pub proof fn in_order_follows(bytes: Seq<u8>, rs: Seq<ReplacementView>)
    requires
        are_separate(bytes, rs),
    ensures
        are_separate(bytes, in_order(rs)),
        follow_each_other(in_order(rs)),
        in_order(rs).to_multiset() == rs.to_multiset(),
{
    last_first_sorts(rs);
    lemma_last_first(bytes, rs);
    let down = last_first(rs);
    let up = in_order(rs);
    down.lemma_reverse_to_multiset();
    assert forall|i: int| 0 <= i < up.len() implies up[i] == down[down.len() - 1 - i] by {}
}

/// Replacements that follow each other are in order already.
pub proof fn in_order_stays(rs: Seq<ReplacementView>)
    requires
        follow_each_other(rs),
        forall|i: int| 0 <= i < rs.len() ==> (#[trigger] rs[i]).start < rs[i].end,
    ensures
        in_order(rs) == rs,
{
    lemma_rising_reversed(rs);
    assert(rs.reverse().reverse() =~= rs);
}

proof fn lemma_rising_reversed(rs: Seq<ReplacementView>)
    requires
        follow_each_other(rs),
        forall|i: int| 0 <= i < rs.len() ==> (#[trigger] rs[i]).start < rs[i].end,
    ensures
        last_first(rs) == rs.reverse(),
    decreases rs.len(),
{
    if rs.len() == 0 {
        assert(rs.reverse() =~= rs);
    } else {
        let init = rs.drop_last();
        let down = init.reverse();
        let start = rs.last().start;
        assert forall|i: int| 0 <= i < init.len() implies init[i] == rs[i] by {}
        lemma_rising_reversed(init);
        lemma_place_for(down, start);
        let at = place_for(down, start);
        if at > 0 {
            assert(down[at - 1] == rs[init.len() - at]);
            assert(rs[init.len() - at].end <= rs[rs.len() - 1].start);
        }
        assert(down.insert(0, rs.last()) =~= rs.reverse());
    }
}

proof fn lemma_starting_at_concat(
    a: Seq<ReplacementView>,
    b: Seq<ReplacementView>,
    start: usize,
)
    ensures
        starting_at(a + b, start) == starting_at(a, start) + starting_at(b, start),
{
    Seq::filter_distributes_over_add(a, b, |r: ReplacementView| r.start == start);
}

proof fn lemma_starting_at_none(rs: Seq<ReplacementView>, start: usize)
    requires
        forall|i: int| 0 <= i < rs.len() ==> (#[trigger] rs[i]).start != start,
    ensures
        starting_at(rs, start) == Seq::<ReplacementView>::empty(),
    decreases rs.len(),
{
    reveal(Seq::filter);
    if rs.len() > 0 {
        assert forall|i: int| 0 <= i < rs.drop_last().len() implies (
        #[trigger] rs.drop_last()[i]).start != start by {
            assert(rs.drop_last()[i] == rs[i]);
        }
        lemma_starting_at_none(rs.drop_last(), start);
        assert(rs.last() == rs[rs.len() - 1]);
    }
}

proof fn lemma_last_first(bytes: Seq<u8>, rs: Seq<ReplacementView>)
    requires
        are_separate(bytes, rs),
    ensures
        are_separate(bytes, last_first(rs)),
        falls(last_first(rs)),
        forall|i: int|
            0 <= i < last_first(rs).len() ==> rs.contains(#[trigger] last_first(rs)[i]),
    decreases rs.len(),
{
    last_first_sorts(rs);
    if rs.len() > 0 {
        let init = rs.drop_last();
        let last = rs.last();
        assert forall|i: int| 0 <= i < init.len() implies is_placed(bytes, #[trigger] init[i])
            && init[i].start < init[i].end by {
            assert(init[i] == rs[i]);
        }
        assert forall|i: int, j: int|
            0 <= i < init.len() && 0 <= j < init.len() && i != j implies (#[trigger] init[i]).end
            <= (#[trigger] init[j]).start || init[j].end <= init[i].start by {
            assert(init[i] == rs[i] && init[j] == rs[j]);
        }
        lemma_last_first(bytes, init);
        let sorted = last_first(init);
        let at = place_for(sorted, last.start);
        lemma_place_for(sorted, last.start);
        let all = last_first(rs);
        assert(last == rs[rs.len() - 1]);
        // Every replacement that was there before is apart from the last one.
        assert forall|i: int| 0 <= i < sorted.len() implies (#[trigger] sorted[i]).end <= last.start
            || last.end <= sorted[i].start by {
            assert(init.contains(sorted[i]));
            let k = choose|k: int| 0 <= k < init.len() && init[k] == sorted[i];
            assert(rs[k] == sorted[i]);
        }
        assert forall|i: int| 0 <= i < all.len() implies is_placed(bytes, #[trigger] all[i])
            && all[i].start < all[i].end by {
            if i < at {
                assert(all[i] == sorted[i]);
            } else if i > at {
                assert(all[i] == sorted[i - 1]);
            }
        }
        assert forall|i: int, j: int|
            0 <= i < all.len() && 0 <= j < all.len() && i != j implies (#[trigger] all[i]).end <= (
        #[trigger] all[j]).start || all[j].end <= all[i].start by {
            let before_i = if i < at { i } else { i - 1 };
            let before_j = if j < at { j } else { j - 1 };
            if i != at {
                assert(all[i] == sorted[before_i]);
            }
            if j != at {
                assert(all[j] == sorted[before_j]);
            }
        }
        assert forall|i: int| 0 <= i < all.len() implies rs.contains(#[trigger] all[i]) by {
            if i == at {
                assert(all[i] == rs[rs.len() - 1]);
            } else {
                let before = if i < at { i } else { i - 1 };
                assert(all[i] == sorted[before]);
                assert(init.contains(sorted[before]));
                let k = choose|k: int| 0 <= k < init.len() && init[k] == sorted[before];
                assert(rs[k] == all[i]);
            }
        }
    }
}

/// Going down through separate spans: what is behind `to` was already dealt
/// with.
proof fn lemma_splice_down(bytes: Seq<u8>, down: Seq<ReplacementView>, to: int, behind: Seq<u8>)
    requires
        valid_utf8(bytes),
        valid_utf8(behind),
        is_char_boundary(bytes, to),
        0 <= to <= bytes.len(),
        are_separate(bytes, down),
        falls(down),
        down.len() > 0 ==> down[0].end <= to,
    ensures
        spliced_in_turn(bytes.take(to) + behind, down) == Some(
            woven(bytes, down.reverse(), 0, to) + behind,
        ),
    decreases down.len(),
{
    let text = bytes.take(to) + behind;
    if down.len() == 0 {
        assert(down.reverse() =~= Seq::<ReplacementView>::empty());
        assert(bytes.take(to) =~= bytes.subrange(0, to));
    } else {
        let r = down[0];
        let rest = down.skip(1);
        assert(is_placed(bytes, r));
        lemma_boundary_in_front(bytes, to, behind, r.start as int);
        lemma_boundary_in_front(bytes, to, behind, r.end as int);
        assert(is_placed(text, r));
        let new = encode_utf8(r.new_text);
        let gap = bytes.subrange(r.end as int, to);
        let then = new + gap + behind;
        assert(spliced(text, r) =~= bytes.take(r.start as int) + then);
        vstd::utf8::encode_utf8_valid_utf8(r.new_text);
        lemma_valid_between(bytes, r.end as int, to);
        vstd::utf8::valid_utf8_concat(new, gap);
        vstd::utf8::valid_utf8_concat(new + gap, behind);
        assert forall|i: int| 0 <= i < rest.len() implies is_placed(bytes, #[trigger] rest[i])
            && rest[i].start < rest[i].end by {
            assert(rest[i] == down[i + 1]);
        }
        assert forall|i: int, j: int|
            0 <= i < rest.len() && 0 <= j < rest.len() && i != j implies (#[trigger] rest[i]).end
            <= (#[trigger] rest[j]).start || rest[j].end <= rest[i].start by {
            assert(rest[i] == down[i + 1] && rest[j] == down[j + 1]);
        }
        assert forall|i: int, j: int| 0 <= i <= j < rest.len() implies (#[trigger] rest[i]).start
            >= (#[trigger] rest[j]).start by {
            assert(rest[i] == down[i + 1] && rest[j] == down[j + 1]);
        }
        if rest.len() > 0 {
            assert(rest[0] == down[1]);
            assert(down[0].start >= down[1].start);
        }
        lemma_splice_down(bytes, rest, r.start as int, then);
        assert(down.reverse() =~= rest.reverse().push(r));
        lemma_woven_push(bytes, rest.reverse(), r, 0, to);
        assert(woven(bytes, rest.reverse(), 0, r.start as int) + then =~= woven(
            bytes,
            down.reverse(),
            0,
            to,
        ) + behind);
    }
}

proof fn lemma_woven_push(
    bytes: Seq<u8>,
    rs: Seq<ReplacementView>,
    r: ReplacementView,
    from: int,
    to: int,
)
    ensures
        woven(bytes, rs.push(r), from, to) == woven(bytes, rs, from, r.start as int) + encode_utf8(
            r.new_text,
        ) + bytes.subrange(r.end as int, to),
    decreases rs.len(),
{
    reveal_with_fuel(woven, 2);
    let all = rs.push(r);
    if rs.len() == 0 {
        assert(all.skip(1) =~= Seq::<ReplacementView>::empty());
    } else {
        assert(all.skip(1) =~= rs.skip(1).push(r));
        assert(all[0] == rs[0]);
        lemma_woven_push(bytes, rs.skip(1), r, rs[0].end as int, to);
        assert(woven(bytes, all, from, to) =~= woven(bytes, rs, from, r.start as int) + encode_utf8(
            r.new_text,
        ) + bytes.subrange(r.end as int, to));
    }
}

/// The text between two boundaries is valid.
proof fn lemma_valid_between(bytes: Seq<u8>, from: int, to: int)
    requires
        valid_utf8(bytes),
        0 <= from <= to <= bytes.len(),
        is_char_boundary(bytes, from),
        is_char_boundary(bytes, to),
    ensures
        valid_utf8(bytes.subrange(from, to)),
{
    vstd::utf8::valid_utf8_split(bytes, to);
    let front = bytes.subrange(0, to);
    lemma_boundary_of_front(bytes, to, from);
    vstd::utf8::valid_utf8_split(front, from);
    assert(front.subrange(from, front.len() as int) =~= bytes.subrange(from, to));
}

/// A boundary of a text is one of its front part as well.
proof fn lemma_boundary_of_front(bytes: Seq<u8>, to: int, index: int)
    requires
        valid_utf8(bytes),
        0 <= index <= to <= bytes.len(),
        is_char_boundary(bytes, index),
        is_char_boundary(bytes, to),
    ensures
        valid_utf8(bytes.subrange(0, to)),
        is_char_boundary(bytes.subrange(0, to), index),
{
    vstd::utf8::valid_utf8_split(bytes, to);
    let front = bytes.subrange(0, to);
    if index == to {
        vstd::utf8::is_char_boundary_start_end_of_seq(front);
    } else {
        vstd::utf8::is_char_boundary_iff_not_is_continuation_byte(bytes, index);
        vstd::utf8::is_char_boundary_iff_not_is_continuation_byte(front, index);
        assert(front[index] == bytes[index]);
    }
}

/// A boundary up to `to` stays one when the text behind `to` is another.
proof fn lemma_boundary_in_front(bytes: Seq<u8>, to: int, behind: Seq<u8>, index: int)
    requires
        valid_utf8(bytes),
        valid_utf8(behind),
        0 <= index <= to <= bytes.len(),
        is_char_boundary(bytes, index),
        is_char_boundary(bytes, to),
    ensures
        valid_utf8(bytes.take(to) + behind),
        is_char_boundary(bytes.take(to) + behind, index),
{
    let front = bytes.take(to);
    let text = front + behind;
    assert(front =~= bytes.subrange(0, to));
    vstd::utf8::valid_utf8_split(bytes, to);
    vstd::utf8::valid_utf8_concat(front, behind);
    if index < to {
        vstd::utf8::is_char_boundary_iff_not_is_continuation_byte(bytes, index);
        vstd::utf8::is_char_boundary_iff_not_is_continuation_byte(text, index);
        assert(text[index] == bytes[index]);
    } else if behind.len() == 0 {
        vstd::utf8::is_char_boundary_start_end_of_seq(text);
    } else {
        vstd::utf8::is_char_boundary_start_end_of_seq(behind);
        vstd::utf8::is_char_boundary_iff_not_is_continuation_byte(behind, 0);
        vstd::utf8::is_char_boundary_iff_not_is_continuation_byte(text, index);
        assert(text[index] == behind[0]);
    }
}

proof fn lemma_starts_below(rs: Seq<ReplacementView>, start: usize)
    requires
        forall|i: int| 0 <= i < rs.len() ==> (#[trigger] rs[i]).start < start,
    ensures
        forall|i: int| 0 <= i < last_first(rs).len() ==> (#[trigger] last_first(rs)[i]).start
            < start,
    decreases rs.len(),
{
    if rs.len() > 0 {
        let init = rs.drop_last();
        assert forall|i: int| 0 <= i < init.len() implies (#[trigger] init[i]).start < start by {
            assert(init[i] == rs[i]);
        }
        lemma_starts_below(init, start);
        let sorted = last_first(init);
        let at = place_for(sorted, rs.last().start);
        lemma_place_for(sorted, rs.last().start);
        let all = last_first(rs);
        assert(rs.last() == rs[rs.len() - 1]);
        assert forall|i: int| 0 <= i < all.len() implies (#[trigger] all[i]).start < start by {
            if i < at {
                assert(all[i] == sorted[i]);
            } else if i > at {
                assert(all[i] == sorted[i - 1]);
            }
        }
    }
}

/// Of several replacements, the one that starts last comes first; of those that
/// start at one place, the one that was given first.
pub proof fn the_last_start_comes_first(
    a: Seq<ReplacementView>,
    r: ReplacementView,
    b: Seq<ReplacementView>,
)
    requires
        forall|i: int| 0 <= i < a.len() ==> (#[trigger] a[i]).start < r.start,
        forall|i: int| 0 <= i < b.len() ==> (#[trigger] b[i]).start <= r.start,
    ensures
        last_first(a + seq![r] + b) == seq![r] + last_first(a + b),
        in_order(a + seq![r] + b) == in_order(a + b) + seq![r],
    decreases b.len(),
{
    let all = a + seq![r] + b;
    if b.len() == 0 {
        assert(a + b =~= a);
        assert(all.drop_last() =~= a);
        lemma_starts_below(a, r.start);
        let sorted = last_first(a);
        lemma_place_for_unique(sorted, r.start, 0);
        assert(sorted.insert(0, r) =~= seq![r] + sorted);
    } else {
        let init = b.drop_last();
        let x = b.last();
        assert(x == b[b.len() - 1]);
        assert forall|i: int| 0 <= i < init.len() implies (#[trigger] init[i]).start <= r.start by {
            assert(init[i] == b[i]);
        }
        the_last_start_comes_first(a, r, init);
        assert(all.drop_last() =~= a + seq![r] + init);
        assert((a + b).drop_last() =~= a + init);
        let sorted = last_first(a + init);
        let at = place_for(sorted, x.start);
        lemma_place_for(sorted, x.start);
        let longer = seq![r] + sorted;
        if at > 0 {
            assert(longer[at] == sorted[at - 1]);
        }
        assert forall|i: int| at + 1 <= i < longer.len() implies (#[trigger] longer[i]).start
            < x.start by {
            assert(longer[i] == sorted[i - 1]);
        }
        lemma_place_for_unique(longer, x.start, at + 1);
        assert(longer.insert(at + 1, x) =~= seq![r] + sorted.insert(at, x));
    }
    assert((seq![r] + last_first(a + b)).reverse() =~= last_first(a + b).reverse() + seq![r]);
}

/// Replacing goes from the last span to the first: the span that starts last is
/// cut out, the new text takes its place, and the others are replaced in what
/// comes of it. A span that lies outside the text, ends before it starts or
/// cuts a character makes the whole fail.
pub proof fn replacing_takes_one_at_a_time(
    bytes: Seq<u8>,
    a: Seq<ReplacementView>,
    r: ReplacementView,
    b: Seq<ReplacementView>,
)
    requires
        forall|i: int| 0 <= i < a.len() ==> (#[trigger] a[i]).start < r.start,
        forall|i: int| 0 <= i < b.len() ==> (#[trigger] b[i]).start <= r.start,
    ensures
        replaced(bytes, a + seq![r] + b) == (if r.start <= r.end <= bytes.len() && is_char_boundary(
            bytes,
            r.start as int,
        ) && is_char_boundary(bytes, r.end as int) {
            replaced(
                bytes.take(r.start as int) + encode_utf8(r.new_text) + bytes.skip(r.end as int),
                a + b,
            )
        } else {
            None
        }),
        replaced(bytes, seq![]) == Some(bytes),
{
    the_last_start_comes_first(a, r, b);
    let rest = last_first(a + b);
    assert((seq![r] + rest).skip(1) =~= rest);
}

/// The text with spans in order replaced: without a span it is the text itself,
/// and a span behind the others adds its new text and what stands behind it.
pub proof fn weaving_goes_span_by_span(
    bytes: Seq<u8>,
    rs: Seq<ReplacementView>,
    r: ReplacementView,
    from: int,
    to: int,
)
    ensures
        woven(bytes, seq![], from, to) == bytes.subrange(from, to),
        woven(bytes, rs + seq![r], from, to) == woven(bytes, rs, from, r.start as int)
            + encode_utf8(r.new_text) + bytes.subrange(r.end as int, to),
{
    lemma_woven_push(bytes, rs, r, from, to);
    assert(rs + seq![r] =~= rs.push(r));
}

/// Texts and fillings in turn: one more text than fillings, from the first text
/// to the last.
pub open spec fn laid_out(texts: Seq<Seq<u8>>, fillings: Seq<Seq<u8>>) -> Seq<u8>
    decreases fillings.len(),
{
    if fillings.len() == 0 {
        texts[0]
    } else {
        laid_out(texts.drop_last(), fillings.drop_last()) + fillings.last() + texts.last()
    }
}

/// The text is made of the pieces, and the spans of the replacements are those
/// of `old`, one after the other.
pub open spec fn spans_fit(
    bytes: Seq<u8>,
    kept: Seq<Seq<u8>>,
    old: Seq<Seq<u8>>,
    rs: Seq<ReplacementView>,
) -> bool {
    &&& kept.len() == rs.len() + 1
    &&& old.len() == rs.len()
    &&& bytes == laid_out(kept, old)
    &&& forall|i: int|
        0 <= i < rs.len() ==> (#[trigger] rs[i]).start == laid_out(
            kept.take(i + 1),
            old.take(i),
        ).len() && rs[i].end == rs[i].start + old[i].len()
}

/// The new texts of replacements.
pub open spec fn new_texts(rs: Seq<ReplacementView>) -> Seq<Seq<u8>> {
    Seq::new(rs.len(), |i: int| encode_utf8(rs[i].new_text))
}

proof fn lemma_spans_fit_before(
    bytes: Seq<u8>,
    kept: Seq<Seq<u8>>,
    old: Seq<Seq<u8>>,
    rs: Seq<ReplacementView>,
)
    requires
        rs.len() > 0,
        spans_fit(bytes, kept, old, rs),
    ensures
        ({
            let r = rs.last();
            &&& r.start <= r.end <= bytes.len()
            &&& spans_fit(
                bytes.take(r.start as int),
                kept.drop_last(),
                old.drop_last(),
                rs.drop_last(),
            )
            &&& bytes == bytes.take(r.start as int) + old.last() + kept.last()
        }),
{
    let n = rs.len() - 1;
    let front = laid_out(kept.drop_last(), old.drop_last());
    assert(kept.take(n + 1) =~= kept.drop_last());
    assert(old.take(n) =~= old.drop_last());
    assert(rs[n].start == front.len());
    assert(bytes.take(front.len() as int) =~= front);
    assert forall|i: int| 0 <= i < n implies (#[trigger] rs.drop_last()[i]).start == laid_out(
        kept.drop_last().take(i + 1),
        old.drop_last().take(i),
    ).len() && rs.drop_last()[i].end == rs.drop_last()[i].start + old.drop_last()[i].len() by {
        assert(rs.drop_last()[i] == rs[i]);
        assert(kept.drop_last().take(i + 1) =~= kept.take(i + 1));
        assert(old.drop_last().take(i) =~= old.take(i));
    }
}

proof fn lemma_woven_pieces(
    bytes: Seq<u8>,
    kept: Seq<Seq<u8>>,
    old: Seq<Seq<u8>>,
    rs: Seq<ReplacementView>,
    to: int,
)
    requires
        0 <= to <= bytes.len(),
        spans_fit(bytes.take(to), kept, old, rs),
    ensures
        woven(bytes, rs, 0, to) == laid_out(kept, new_texts(rs)),
    decreases rs.len(),
{
    if rs.len() == 0 {
        assert(bytes.subrange(0, to) =~= bytes.take(to));
        assert(new_texts(rs) =~= Seq::<Seq<u8>>::empty());
    } else {
        let r = rs.last();
        let init = rs.drop_last();
        lemma_spans_fit_before(bytes.take(to), kept, old, rs);
        assert(r == rs[rs.len() - 1]);
        assert(bytes.take(to).take(r.start as int) =~= bytes.take(r.start as int));
        lemma_woven_pieces(bytes, kept.drop_last(), old.drop_last(), init, r.start as int);
        lemma_woven_push(bytes, init, r, 0, to);
        assert(init.push(r) =~= rs);
        assert(new_texts(rs).drop_last() =~= new_texts(init));
        assert(new_texts(rs).last() == encode_utf8(r.new_text));
        assert(bytes.subrange(r.end as int, to) =~= bytes.take(to).skip(r.end as int));
        assert(bytes.take(to).skip(r.end as int) =~= kept.last());
    }
}

proof fn lemma_pieces_follow(
    bytes: Seq<u8>,
    kept: Seq<Seq<u8>>,
    old: Seq<Seq<u8>>,
    rs: Seq<ReplacementView>,
)
    requires
        spans_fit(bytes, kept, old, rs),
    ensures
        follow_each_other(rs),
        forall|i: int| 0 <= i < rs.len() ==> (#[trigger] rs[i]).start <= rs[i].end <= bytes.len(),
    decreases rs.len(),
{
    if rs.len() > 0 {
        let r = rs.last();
        let init = rs.drop_last();
        lemma_spans_fit_before(bytes, kept, old, rs);
        let front = bytes.take(r.start as int);
        lemma_pieces_follow(front, kept.drop_last(), old.drop_last(), init);
        assert forall|i: int| 0 <= i < rs.len() implies (#[trigger] rs[i]).start <= rs[i].end
            <= bytes.len() by {
            if i < init.len() {
                assert(init[i] == rs[i]);
            }
        }
        assert forall|i: int, j: int| 0 <= i < j < rs.len() implies (#[trigger] rs[i]).end <= (
        #[trigger] rs[j]).start by {
            assert(init[i] == rs[i]);
            if j < init.len() {
                assert(init[j] == rs[j]);
            }
        }
    }
}

/// A text cut into pieces that are kept and pieces that are replaced: the
/// pieces that are kept stand in the result as they stood in the text, with the
/// new texts between them in place of the old ones.
pub proof fn pieces_between_the_spans_stay(
    bytes: Seq<u8>,
    kept: Seq<Seq<u8>>,
    old: Seq<Seq<u8>>,
    rs: Seq<ReplacementView>,
)
    requires
        spans_fit(bytes, kept, old, rs),
    ensures
        woven(bytes, rs, 0, bytes.len() as int) == laid_out(kept, new_texts(rs)),
        valid_utf8(bytes) && (forall|i: int|
            0 <= i < rs.len() ==> (#[trigger] rs[i]).start < rs[i].end && is_char_boundary(
                bytes,
                rs[i].start as int,
            ) && is_char_boundary(bytes, rs[i].end as int)) ==> replaced(bytes, rs) == Some(
            laid_out(kept, new_texts(rs)),
        ),
{
    let n = bytes.len() as int;
    assert(bytes.take(n) =~= bytes);
    lemma_woven_pieces(bytes, kept, old, rs, n);
    if valid_utf8(bytes) && (forall|i: int|
        0 <= i < rs.len() ==> (#[trigger] rs[i]).start < rs[i].end && is_char_boundary(
            bytes,
            rs[i].start as int,
        ) && is_char_boundary(bytes, rs[i].end as int)) {
        lemma_pieces_follow(bytes, kept, old, rs);
        assert(are_separate(bytes, rs));
        only_the_spans_change(bytes, rs);
        in_order_stays(rs);
    }
}

/// Where spans follow each other in a text, the text can be cut into such
/// pieces.
pub proof fn spans_cut_a_text_into_pieces(bytes: Seq<u8>, rs: Seq<ReplacementView>)
    requires
        forall|i: int, j: int|
            0 <= i < j < rs.len() ==> (#[trigger] rs[i]).end <= (#[trigger] rs[j]).start,
        forall|i: int| 0 <= i < rs.len() ==> (#[trigger] rs[i]).start <= rs[i].end <= bytes.len(),
    ensures
        exists|kept: Seq<Seq<u8>>, old: Seq<Seq<u8>>| #[trigger] spans_fit(bytes, kept, old, rs),
    decreases rs.len(),
{
    if rs.len() == 0 {
        assert(spans_fit(bytes, seq![bytes], seq![], rs));
    } else {
        let n = rs.len() - 1;
        let r = rs.last();
        let init = rs.drop_last();
        let front = bytes.take(r.start as int);
        assert(r == rs[n]);
        assert forall|i: int| 0 <= i < init.len() implies (#[trigger] init[i]).start <= init[i].end
            <= front.len() by {
            assert(init[i] == rs[i]);
            assert(rs[i].end <= rs[n].start);
        }
        assert forall|i: int, j: int| 0 <= i < j < init.len() implies (#[trigger] init[i]).end <= (
        #[trigger] init[j]).start by {
            assert(init[i] == rs[i] && init[j] == rs[j]);
        }
        spans_cut_a_text_into_pieces(front, init);
        let (kept, old) = choose|kept: Seq<Seq<u8>>, old: Seq<Seq<u8>>| #[trigger]
            spans_fit(front, kept, old, init);
        let all_kept = kept.push(bytes.skip(r.end as int));
        let all_old = old.push(bytes.subrange(r.start as int, r.end as int));
        assert(all_kept.drop_last() =~= kept);
        assert(all_old.drop_last() =~= old);
        assert(bytes =~= front + all_old.last() + all_kept.last());
        assert forall|i: int| 0 <= i < rs.len() implies (#[trigger] rs[i]).start == laid_out(
            all_kept.take(i + 1),
            all_old.take(i),
        ).len() && rs[i].end == rs[i].start + all_old[i].len() by {
            if i < n {
                assert(init[i] == rs[i]);
                assert(all_kept.take(i + 1) =~= kept.take(i + 1));
                assert(all_old.take(i) =~= old.take(i));
            } else {
                assert(all_kept.take(i + 1) =~= kept);
                assert(all_old.take(i) =~= old);
            }
        }
        assert(spans_fit(bytes, all_kept, all_old, rs));
    }
}

} // verus!
