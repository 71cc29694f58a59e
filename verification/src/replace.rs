//! Replacing spans of a text, given as byte offsets.
use vstd::prelude::*;
use vstd::utf8::encode_utf8;
use vstd::utf8::is_char_boundary;
use vstd::utf8::valid_utf8;

verus! {

/// A span of a text, and what takes its place.
#[derive(Debug)]
pub struct Replacement {
    pub start: usize,
    pub end: usize,
    pub new_text: String,
}

/// The model of a [`Replacement`].
#[verifier::ext_equal]
pub struct ReplacementView {
    pub start: usize,
    pub end: usize,
    pub new_text: Seq<char>,
}

impl View for Replacement {
    type V = ReplacementView;

    open spec fn view(&self) -> ReplacementView {
        ReplacementView { start: self.start, end: self.end, new_text: self.new_text@ }
    }
}

/// The models of a list of replacements.
pub open spec fn replacement_views(replacements: Seq<Replacement>) -> Seq<ReplacementView> {
    Seq::new(replacements.len(), |i: int| replacements[i]@)
}

/// The span lies in the text, the right way round, and cuts no character.
pub open spec fn is_placed(bytes: Seq<u8>, r: ReplacementView) -> bool {
    &&& r.start <= r.end <= bytes.len()
    &&& is_char_boundary(bytes, r.start as int)
    &&& is_char_boundary(bytes, r.end as int)
}

/// The text with one span replaced.
pub open spec fn spliced(bytes: Seq<u8>, r: ReplacementView) -> Seq<u8> {
    bytes.take(r.start as int) + encode_utf8(r.new_text) + bytes.skip(r.end as int)
}

/// The text after one replacement after the other, or `None` if one of them
/// comes upon a text in which it is not placed.
pub open spec fn spliced_in_turn(bytes: Seq<u8>, rs: Seq<ReplacementView>) -> Option<Seq<u8>>
    decreases rs.len(),
{
    if rs.len() == 0 {
        Some(bytes)
    } else if is_placed(bytes, rs[0]) {
        spliced_in_turn(spliced(bytes, rs[0]), rs.skip(1))
    } else {
        None
    }
}

/// In a list ordered by falling starts, the place behind all that start no
/// earlier than `start`.
pub open spec fn place_for(rs: Seq<ReplacementView>, start: usize) -> int
    decreases rs.len(),
{
    if rs.len() == 0 || rs.last().start >= start {
        rs.len() as int
    } else {
        place_for(rs.drop_last(), start)
    }
}

/// The replacements by falling starts; those with one start keep their order.
pub open spec fn last_first(rs: Seq<ReplacementView>) -> Seq<ReplacementView>
    decreases rs.len(),
{
    if rs.len() == 0 {
        rs
    } else {
        let sorted = last_first(rs.drop_last());
        sorted.insert(place_for(sorted, rs.last().start), rs.last())
    }
}

/// The text with all replacements made, from the last to the first.
pub open spec fn replaced(bytes: Seq<u8>, rs: Seq<ReplacementView>) -> Option<Seq<u8>> {
    spliced_in_turn(bytes, last_first(rs))
}

/// The replacements as their spans follow each other.
pub open spec fn in_order(rs: Seq<ReplacementView>) -> Seq<ReplacementView> {
    last_first(rs).reverse()
}

/// The text between two offsets, with the spans of `rs`, which stand in order,
/// replaced and everything else as it was.
pub open spec fn woven(bytes: Seq<u8>, rs: Seq<ReplacementView>, from: int, to: int) -> Seq<u8>
    decreases rs.len(),
{
    if rs.len() == 0 {
        bytes.subrange(from, to)
    } else {
        bytes.subrange(from, rs[0].start as int) + encode_utf8(rs[0].new_text) + woven(
            bytes,
            rs.skip(1),
            rs[0].end as int,
            to,
        )
    }
}

/// The spans are placed in the text, none is empty, and no two overlap.
pub open spec fn are_separate(bytes: Seq<u8>, rs: Seq<ReplacementView>) -> bool {
    &&& forall|i: int|
        0 <= i < rs.len() ==> is_placed(bytes, #[trigger] rs[i]) && rs[i].start < rs[i].end
    &&& forall|i: int, j: int|
        0 <= i < rs.len() && 0 <= j < rs.len() && i != j ==> (#[trigger] rs[i]).end <= (
        #[trigger] rs[j]).start || rs[j].end <= rs[i].start
}

/// Each span ends before the next one starts.
pub open spec fn follow_each_other(rs: Seq<ReplacementView>) -> bool {
    forall|i: int, j: int|
        0 <= i < j < rs.len() ==> (#[trigger] rs[i]).end <= (#[trigger] rs[j]).start
}

/// Encoding distributes over concatenation.
proof fn lemma_encode_concat(a: Seq<char>, b: Seq<char>)
    ensures
        encode_utf8(a + b) == encode_utf8(a) + encode_utf8(b),
    decreases a.len(),
{
    if a.len() == 0 {
        assert(a + b =~= b);
        assert(encode_utf8(a) + encode_utf8(b) =~= encode_utf8(b));
    } else {
        lemma_encode_concat(a.drop_first(), b);
        assert((a + b).drop_first() =~= a.drop_first() + b);
        assert(encode_utf8(a + b) =~= encode_utf8(a) + encode_utf8(b));
    }
}

/// What stands before the place starts no earlier than `start`, what stands
/// behind it does.
pub proof fn lemma_place_for(rs: Seq<ReplacementView>, start: usize)
    ensures
        0 <= place_for(rs, start) <= rs.len(),
        place_for(rs, start) > 0 ==> rs[place_for(rs, start) - 1].start >= start,
        forall|i: int| place_for(rs, start) <= i < rs.len() ==> (#[trigger] rs[i]).start < start,
    decreases rs.len(),
{
    if rs.len() == 0 || rs.last().start >= start {
    } else {
        lemma_place_for(rs.drop_last(), start);
        assert forall|i: int| place_for(rs, start) <= i < rs.len() implies (#[trigger] rs[i]).start
            < start by {
            if i < rs.len() - 1 {
                assert(rs[i] == rs.drop_last()[i]);
            }
        }
    }
}

/// A place before which the last one starts no earlier than `start`, and behind
/// which all start earlier, is what `place_for` gives.
pub proof fn lemma_place_for_unique(rs: Seq<ReplacementView>, start: usize, n: int)
    requires
        0 <= n <= rs.len(),
        n > 0 ==> rs[n - 1].start >= start,
        forall|i: int| n <= i < rs.len() ==> (#[trigger] rs[i]).start < start,
    ensures
        place_for(rs, start) == n,
{
    lemma_place_for(rs, start);
    let m = place_for(rs, start);
    if m < n {
        assert(rs[n - 1].start < start);
    } else if n < m {
        assert(rs[m - 1].start < start);
    }
}

/// Puts replacements in the order of falling starts; those with one start keep
/// their order.
pub fn sort_last_first(replacements: Vec<Replacement>) -> (res: Vec<Replacement>)
    ensures
        replacement_views(res@) == last_first(replacement_views(replacements@)),
{
    let ghost rs = replacement_views(replacements@);
    let mut todo = replacements;
    let mut sorted: Vec<Replacement> = Vec::new();
    assert(replacement_views(sorted@) =~= last_first(rs.take(0)));
    let count: usize = todo.len();
    // Taking from the front keeps equal starts in order.
    for k in 0..count
        invariant
            count == rs.len(),
            todo@.len() == count - k,
            forall|i: int| 0 <= i < todo@.len() ==> (#[trigger] todo@[i])@ == rs[k + i],
            replacement_views(sorted@) == last_first(rs.take(k as int)),
    {
        let r = todo.remove(0);
        assert(r@ == rs[k as int]);
        let ghost so_far = replacement_views(sorted@);
        let mut at: usize = sorted.len();
        while at > 0 && sorted[at - 1].start < r.start
            invariant
                at <= sorted.len(),
                so_far == replacement_views(sorted@),
                forall|i: int| at <= i < so_far.len() ==> (#[trigger] so_far[i]).start < r.start,
            decreases at,
        {
            assert(so_far[at - 1] == sorted@[at - 1]@);
            at = at - 1;
        }
        proof {
            if at > 0 {
                assert(so_far[at - 1] == sorted@[at - 1]@);
            }
            lemma_place_for_unique(so_far, r.start, at as int);
            assert(rs.take(k + 1).drop_last() =~= rs.take(k as int));
            assert(rs.take(k + 1).last() == r@);
        }
        sorted.insert(at, r);
        assert(replacement_views(sorted@) =~= so_far.insert(at as int, r@));
    }
    assert(rs.take(rs.len() as int) =~= rs);
    sorted
}

/// Puts replacements in the order in which their spans follow each other.
pub fn sort_in_order(replacements: Vec<Replacement>) -> (res: Vec<Replacement>)
    ensures
        replacement_views(res@) == in_order(replacement_views(replacements@)),
{
    let ghost down = last_first(replacement_views(replacements@));
    let mut left = sort_last_first(replacements);
    let mut sorted: Vec<Replacement> = Vec::new();
    let count: usize = left.len();
    for k in 0..count
        invariant
            count == down.len(),
            left@.len() == count - k,
            forall|i: int| 0 <= i < left@.len() ==> (#[trigger] left@[i])@ == down[i],
            sorted@.len() == k,
            forall|i: int| 0 <= i < k ==> (#[trigger] sorted@[i])@ == down[count - 1 - i],
    {
        let last = left.pop().unwrap();
        assert(last@ == down[count - 1 - k]);
        sorted.push(last);
    }
    assert(replacement_views(sorted@) =~= down.reverse());
    sorted
}

/// Makes all replacements, from the last to the first, so that the offsets of
/// those that are still to come stay right. Gives `None` where a span is not
/// placed in the text that it comes upon.
pub fn apply_replacements(source: &str, replacements: Vec<Replacement>) -> (res: Option<String>)
    ensures
        (match res {
            Some(text) => replaced(encode_utf8(source@), replacement_views(replacements@)) == Some(
                encode_utf8(text@),
            ),
            None => replaced(encode_utf8(source@), replacement_views(replacements@)) is None,
        }),
{
    let sorted = sort_last_first(replacements);
    let ghost rs = replacement_views(sorted@);
    let mut result = source.to_owned();
    assert(rs.skip(0) =~= rs);
    for i in 0..sorted.len()
        invariant
            rs == replacement_views(sorted@),
            rs == last_first(replacement_views(replacements@)),
            replaced(encode_utf8(source@), replacement_views(replacements@)) == spliced_in_turn(
                encode_utf8(result@),
                rs.skip(i as int),
            ),
    {
        let r = &sorted[i];
        assert(rs.skip(i as int)[0] == r@);
        let text = result.as_str();
        let ghost bytes = encode_utf8(result@);
        proof {
            vstd::utf8::encode_utf8_valid_utf8(result@);
        }
        if r.start > r.end || !text.is_char_boundary(r.start) || !text.is_char_boundary(r.end) {
            return None;
        }
        proof {
            lemma_boundary_in_bounds(bytes, r.end as int);
        }
        let (head, _) = text.split_at(r.start);
        let (_, tail) = text.split_at(r.end);
        let mut next = head.to_owned();
        next.append(r.new_text.as_str());
        next.append(tail);
        proof {
            lemma_encode_concat(head@, r.new_text@);
            lemma_encode_concat(head@ + r.new_text@, tail@);
            assert(encode_utf8(next@) =~= spliced(bytes, r@));
            assert(rs.skip(i as int).skip(1) =~= rs.skip(i + 1));
        }
        result = next;
    }
    Some(result)
}

/// A boundary lies in the text.
proof fn lemma_boundary_in_bounds(bytes: Seq<u8>, index: int)
    requires
        valid_utf8(bytes),
        is_char_boundary(bytes, index),
    ensures
        0 <= index <= bytes.len(),
{
}

} // verus!
