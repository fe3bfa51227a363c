use vstd::prelude::*;
use vstd::relations::{sorted_by, total_ordering};
use vstd::seq_lib::{group_to_multiset_ensures, lemma_multiset_commutative};

use crate::error::PipelineError;
use crate::sorting::insertion_sort;

verus! {

/// One entry of a score vector: a confidence, held as the bit pattern of its
/// IEEE-754 single-precision value, and the 1-based tag id of its class.
#[derive(Clone, Copy, Debug, PartialEq, Eq, Structural)]
pub struct ScoredTag {
    pub score_bits: u32,
    pub tag_id: usize,
}

/// Position of a single-precision bit pattern in the IEEE-754 total order
/// (the order of `f32::total_cmp`): a larger key is a larger value.
/// Negative patterns are reflected below the positive ones.
pub open spec fn order_key(bits: u32) -> nat {
    if bits >= 0x8000_0000 {
        (0xFFFF_FFFFu32 - bits) as nat
    } else {
        bits as nat + 0x8000_0000
    }
}

/// `a` comes no later than `b` in rank order: higher confidence first,
/// equal confidences by ascending tag id.
pub open spec fn rank_le(a: ScoredTag, b: ScoredTag) -> bool {
    order_key(a.score_bits) > order_key(b.score_bits) || (order_key(a.score_bits) == order_key(
        b.score_bits,
    ) && a.tag_id <= b.tag_id)
}

/// `a` comes no later than `b` in tag-id order: ascending tag id,
/// equal ids by descending confidence.
pub open spec fn id_le(a: ScoredTag, b: ScoredTag) -> bool {
    a.tag_id < b.tag_id || (a.tag_id == b.tag_id && order_key(a.score_bits) >= order_key(
        b.score_bits,
    ))
}

/// The two orders in which tags are arranged.
#[derive(Clone, Copy, Debug, PartialEq, Eq, Structural)]
pub enum TagOrder {
    ByRank,
    ById,
}

pub open spec fn order_rel(order: TagOrder) -> spec_fn(ScoredTag, ScoredTag) -> bool {
    match order {
        TagOrder::ByRank => |a: ScoredTag, b: ScoredTag| rank_le(a, b),
        TagOrder::ById => |a: ScoredTag, b: ScoredTag| id_le(a, b),
    }
}

/// `s` arranged by descending confidence, ties by ascending tag id.
pub open spec fn ranked(s: Seq<ScoredTag>) -> Seq<ScoredTag> {
    s.sort_by(order_rel(TagOrder::ByRank))
}

/// `s` arranged by ascending tag id, ties by descending confidence.
pub open spec fn by_tag_id(s: Seq<ScoredTag>) -> Seq<ScoredTag> {
    s.sort_by(order_rel(TagOrder::ById))
}

pub proof fn lemma_order_total(order: TagOrder)
    ensures
        total_ordering(order_rel(order)),
{
    let r = order_rel(order);
    assert forall|a: ScoredTag, b: ScoredTag| #[trigger] r(a, b) && #[trigger] r(b, a) implies a
        == b by {
        assert(a.score_bits == b.score_bits);
    }
}

/// Sorting keeps the elements and their count and yields a sorted sequence.
pub proof fn lemma_sort_keeps_elements(s: Seq<ScoredTag>, order: TagOrder)
    ensures
        s.sort_by(order_rel(order)).len() == s.len(),
        s.sort_by(order_rel(order)).to_multiset() == s.to_multiset(),
        sorted_by(s.sort_by(order_rel(order)), order_rel(order)),
{
    lemma_order_total(order);
    s.lemma_sort_by_ensures(order_rel(order));
    broadcast use group_to_multiset_ensures;

    assert(s.to_multiset().len() == s.len());
    assert(s.sort_by(order_rel(order)).to_multiset().len() == s.sort_by(order_rel(order)).len());
}

/// The rank key of a bit pattern, as `order_key` defines it.
pub fn score_order_key(bits: u32) -> (k: u32)
    ensures
        k as nat == order_key(bits),
{
    if bits >= 0x8000_0000 {
        0xFFFF_FFFFu32 - bits
    } else {
        bits + 0x8000_0000
    }
}

fn comes_before(a: &ScoredTag, b: &ScoredTag, order: TagOrder) -> (r: bool)
    ensures
        r == (order_rel(order))(*a, *b),
{
    let ka = score_order_key(a.score_bits);
    let kb = score_order_key(b.score_bits);
    match order {
        TagOrder::ByRank => ka > kb || (ka == kb && a.tag_id <= b.tag_id),
        TagOrder::ById => a.tag_id < b.tag_id || (a.tag_id == b.tag_id && ka >= kb),
    }
}

/// Arranges `tags` in the given order; equal entries are identical, so the
/// result is the one sequence sorted in that order with the same elements.
pub fn sort_tags(tags: &Vec<ScoredTag>, order: TagOrder) -> (r: Vec<ScoredTag>)
    ensures
        r@ == tags@.sort_by(order_rel(order)),
{
    proof {
        lemma_order_total(order);
    }
    let before = |a: &ScoredTag, b: &ScoredTag| -> (r: bool)
        ensures
            r == (order_rel(order))(*a, *b),
        { comes_before(a, b, order) };
    insertion_sort(tags, &before, Ghost(order_rel(order)))
}

/// Attribute tags kept per image under the fixed policy.
pub const ATTRIBUTE_LIMIT: usize = 40;

/// Character tags kept per image under the fixed policy.
pub const CHARACTER_LIMIT: usize = 5;

/// Rating tags kept per image under the fixed policy.
pub const RATING_LIMIT: usize = 1;

/// Offset of the first character class in the deepdanbooru model's output.
pub const DEEPDANBOORU_CHARACTER_START: usize = 6891;

/// Offset of the first rating class in the deepdanbooru model's output.
pub const DEEPDANBOORU_RATING_START: usize = 9173;

/// Where the character and rating segments begin in a model's output;
/// everything before `character_start` is an attribute.
#[derive(Clone, Copy, Debug, PartialEq, Eq, Structural)]
pub struct SegmentLayout {
    pub character_start: usize,
    pub rating_start: usize,
}

impl SegmentLayout {
    /// The layout of the deepdanbooru model's output.
    pub fn deepdanbooru() -> (r: SegmentLayout)
        ensures
            r.character_start == DEEPDANBOORU_CHARACTER_START,
            r.rating_start == DEEPDANBOORU_RATING_START,
    {
        SegmentLayout {
            character_start: DEEPDANBOORU_CHARACTER_START,
            rating_start: DEEPDANBOORU_RATING_START,
        }
    }
}

/// How many ranked tags survive.
#[derive(Clone, Copy, Debug, PartialEq, Eq, Structural)]
pub enum Policy {
    /// The best `attributes`, `characters` and `rating` entries of each segment.
    FixedTopN { attributes: usize, characters: usize, rating: usize },
    /// Over the whole vector, the entries whose confidence is at least the one
    /// with bit pattern `min_score_bits` (in the total order), at most `max_count`
    /// of them, best first.
    ThresholdCap { min_score_bits: u32, max_count: usize },
}

impl Policy {
    /// The fixed policy with the deployed limits.
    pub fn default_top_n() -> (r: Policy)
        ensures
            r == (Policy::FixedTopN {
                attributes: ATTRIBUTE_LIMIT,
                characters: CHARACTER_LIMIT,
                rating: RATING_LIMIT,
            }),
    {
        Policy::FixedTopN {
            attributes: ATTRIBUTE_LIMIT,
            characters: CHARACTER_LIMIT,
            rating: RATING_LIMIT,
        }
    }
}

/// The score vector as the scorer hands it out: entry `i` is class `i`,
/// whose tag id is `i + 1`.
pub open spec fn indexed_scores(bits: Seq<u32>) -> Seq<ScoredTag> {
    Seq::new(bits.len(), |i: int| ScoredTag { score_bits: bits[i], tag_id: (i + 1) as usize })
}

/// The first `n` entries of `s` in rank order (all of them if `s` is shorter).
pub open spec fn top_n(s: Seq<ScoredTag>, n: nat) -> Seq<ScoredTag> {
    if n < s.len() {
        ranked(s).take(n as int)
    } else {
        ranked(s)
    }
}

pub open spec fn layout_fits(len: nat, layout: SegmentLayout) -> bool {
    layout.character_start <= layout.rating_start <= len
}

pub open spec fn attributes_of(s: Seq<ScoredTag>, layout: SegmentLayout) -> Seq<ScoredTag> {
    s.subrange(0, layout.character_start as int)
}

pub open spec fn characters_of(s: Seq<ScoredTag>, layout: SegmentLayout) -> Seq<ScoredTag> {
    s.subrange(layout.character_start as int, layout.rating_start as int)
}

pub open spec fn rating_of(s: Seq<ScoredTag>, layout: SegmentLayout) -> Seq<ScoredTag> {
    s.subrange(layout.rating_start as int, s.len() as int)
}

pub open spec fn meets_threshold(min_score_bits: u32) -> spec_fn(ScoredTag) -> bool {
    |t: ScoredTag| order_key(t.score_bits) >= order_key(min_score_bits)
}

/// The entries at or above the threshold, best first, cut to `max_count`.
pub open spec fn thresholded(s: Seq<ScoredTag>, min_score_bits: u32, max_count: nat) -> Seq<
    ScoredTag,
> {
    let kept = ranked(s).filter(meets_threshold(min_score_bits));
    if max_count < kept.len() {
        kept.take(max_count as int)
    } else {
        kept
    }
}

/// What survives `policy`, before the final arrangement.
pub open spec fn kept(s: Seq<ScoredTag>, layout: SegmentLayout, policy: Policy) -> Seq<ScoredTag> {
    match policy {
        Policy::FixedTopN { attributes, characters, rating } => top_n(
            attributes_of(s, layout),
            attributes as nat,
        ) + top_n(characters_of(s, layout), characters as nat) + top_n(
            rating_of(s, layout),
            rating as nat,
        ),
        Policy::ThresholdCap { min_score_bits, max_count } => thresholded(
            s,
            min_score_bits,
            max_count as nat,
        ),
    }
}

/// What survives `policy`, in ascending tag-id order.
pub open spec fn selected(s: Seq<ScoredTag>, layout: SegmentLayout, policy: Policy) -> Seq<
    ScoredTag,
> {
    by_tag_id(kept(s, layout, policy))
}

/// In rank order confidences never increase.
pub proof fn lemma_ranked_non_increasing(s: Seq<ScoredTag>)
    ensures
        ranked(s).len() == s.len(),
        forall|i: int, j: int|
            0 <= i < j < s.len() ==> order_key(#[trigger] ranked(s)[i].score_bits) >= order_key(
                #[trigger] ranked(s)[j].score_bits,
            ),
{
    lemma_sort_keeps_elements(s, TagOrder::ByRank);
    let r = ranked(s);
    assert forall|i: int, j: int| 0 <= i < j < s.len() implies order_key(
        #[trigger] r[i].score_bits,
    ) >= order_key(#[trigger] r[j].score_bits) by {
        assert((order_rel(TagOrder::ByRank))(r[i], r[j]));
    }
}

/// Ranking a vector that fits the layout gives three segments of exactly the
/// sizes the offsets define, each with confidences that never increase.
pub proof fn lemma_segments_match_layout(s: Seq<ScoredTag>, layout: SegmentLayout)
    requires
        layout_fits(s.len(), layout),
    ensures
        ranked(attributes_of(s, layout)).len() == layout.character_start,
        ranked(characters_of(s, layout)).len() == layout.rating_start - layout.character_start,
        ranked(rating_of(s, layout)).len() == s.len() - layout.rating_start,
        forall|i: int, j: int|
            0 <= i < j < layout.character_start ==> order_key(
                #[trigger] ranked(attributes_of(s, layout))[i].score_bits,
            ) >= order_key(#[trigger] ranked(attributes_of(s, layout))[j].score_bits),
        forall|i: int, j: int|
            0 <= i < j < layout.rating_start - layout.character_start ==> order_key(
                #[trigger] ranked(characters_of(s, layout))[i].score_bits,
            ) >= order_key(#[trigger] ranked(characters_of(s, layout))[j].score_bits),
        forall|i: int, j: int|
            0 <= i < j < s.len() - layout.rating_start ==> order_key(
                #[trigger] ranked(rating_of(s, layout))[i].score_bits,
            ) >= order_key(#[trigger] ranked(rating_of(s, layout))[j].score_bits),
{
    lemma_ranked_non_increasing(attributes_of(s, layout));
    lemma_ranked_non_increasing(characters_of(s, layout));
    lemma_ranked_non_increasing(rating_of(s, layout));
}

/// Truncating a segment to `n` keeps `min(n, len)` entries, every kept entry
/// ranks at or above every dropped one, and kept and dropped together are
/// exactly the segment's entries.
pub proof fn lemma_top_n_keeps_best(s: Seq<ScoredTag>, n: nat)
    ensures
        top_n(s, n).len() == if n < s.len() {
            n
        } else {
            s.len()
        },
        top_n(s, n) + ranked(s).skip(top_n(s, n).len() as int) == ranked(s),
        (top_n(s, n) + ranked(s).skip(top_n(s, n).len() as int)).to_multiset() == s.to_multiset(),
        forall|i: int, j: int|
            0 <= i < top_n(s, n).len() <= j < s.len() ==> rank_le(
                #[trigger] top_n(s, n)[i],
                #[trigger] ranked(s)[j],
            ),
        forall|i: int, j: int|
            0 <= i < top_n(s, n).len() <= j < s.len() ==> order_key(
                #[trigger] top_n(s, n)[i].score_bits,
            ) >= order_key(#[trigger] ranked(s)[j].score_bits),
{
    lemma_sort_keeps_elements(s, TagOrder::ByRank);
    let r = ranked(s);
    let k = top_n(s, n).len() as int;
    assert(top_n(s, n) + r.skip(k) =~= r);
    assert forall|i: int, j: int| 0 <= i < k <= j < s.len() implies rank_le(
        #[trigger] top_n(s, n)[i],
        #[trigger] r[j],
    ) by {
        assert(top_n(s, n)[i] == r[i]);
        assert((order_rel(TagOrder::ByRank))(r[i], r[j]));
    }
}

/// No entry of a segment that truncation drops ranks above, or has a higher
/// confidence than, any entry it keeps.
pub proof fn lemma_dropped_never_outrank_kept(s: Seq<ScoredTag>, n: nat)
    ensures
        forall|x: ScoredTag, y: ScoredTag|
            #[trigger] top_n(s, n).contains(x) && #[trigger] s.contains(y) && !top_n(
                s,
                n,
            ).contains(y) ==> rank_le(x, y) && order_key(x.score_bits) >= order_key(y.score_bits),
{
    broadcast use group_to_multiset_ensures;

    lemma_sort_keeps_elements(s, TagOrder::ByRank);
    lemma_top_n_keeps_best(s, n);
    let r = ranked(s);
    let t = top_n(s, n);
    assert forall|x: ScoredTag, y: ScoredTag|
        #[trigger] t.contains(x) && #[trigger] s.contains(y) && !t.contains(y) implies rank_le(x, y)
        && order_key(x.score_bits) >= order_key(y.score_bits) by {
        let i = choose|i: int| 0 <= i < t.len() && t[i] == x;
        assert(s.to_multiset().count(y) > 0);
        assert(r.to_multiset().count(y) > 0);
        assert(r.contains(y));
        let j = choose|j: int| 0 <= j < r.len() && r[j] == y;
        if j < t.len() {
            assert(t[j] == r[j]);
        }
        assert(rank_le(t[i], r[j]));
    }
}

/// The final list is in ascending tag-id order and holds exactly the entries
/// that survived the policy, each as often as it survived: no duplicate is
/// merged away.
pub proof fn lemma_selected_ascending_ids(s: Seq<ScoredTag>, layout: SegmentLayout, policy: Policy)
    ensures
        selected(s, layout, policy).to_multiset() == kept(s, layout, policy).to_multiset(),
        selected(s, layout, policy).len() == kept(s, layout, policy).len(),
        forall|i: int, j: int|
            0 <= i < j < selected(s, layout, policy).len() ==> (#[trigger] selected(
                s,
                layout,
                policy,
            )[i]).tag_id <= (#[trigger] selected(s, layout, policy)[j]).tag_id,
{
    let k = kept(s, layout, policy);
    lemma_sort_keeps_elements(k, TagOrder::ById);
    let r = selected(s, layout, policy);
    assert forall|i: int, j: int| 0 <= i < j < r.len() implies (#[trigger] r[i]).tag_id <= (
    #[trigger] r[j]).tag_id by {
        assert((order_rel(TagOrder::ById))(r[i], r[j]));
    }
}

/// Every entry that ranking and truncation keep from a part of the score
/// vector is an entry of that part.
pub proof fn lemma_top_n_from_segment(s: Seq<ScoredTag>, n: nat)
    ensures
        forall|k: int| 0 <= k < top_n(s, n).len() ==> s.contains(#[trigger] top_n(s, n)[k]),
{
    lemma_order_total(TagOrder::ByRank);
    s.lemma_sort_by_ensures(order_rel(TagOrder::ByRank));
    lemma_sort_keeps_elements(s, TagOrder::ByRank);
    assert forall|k: int| 0 <= k < top_n(s, n).len() implies s.contains(
        #[trigger] top_n(s, n)[k],
    ) by {
        assert(ranked(s).contains(ranked(s)[k]));
    }
}

/// Under the fixed policy, on a score vector whose ids are its class indices
/// plus one, the final list holds exactly the best `attributes` entries of the
/// attribute segment (ids `1..=character_start`), the best `characters` of the
/// character segment (ids up to `rating_start`) and the best `rating` of the
/// rest (ids above `rating_start`), each as many as the segment allows.
pub proof fn lemma_fixed_selection_by_segment(
    bits: Seq<u32>,
    layout: SegmentLayout,
    attributes: usize,
    characters: usize,
    rating: usize,
)
    requires
        layout_fits(bits.len(), layout),
        bits.len() <= usize::MAX,
    ensures
        ({
            let s = indexed_scores(bits);
            let policy = Policy::FixedTopN { attributes, characters, rating };
            let ta = top_n(attributes_of(s, layout), attributes as nat);
            let tc = top_n(characters_of(s, layout), characters as nat);
            let tr = top_n(rating_of(s, layout), rating as nat);
            &&& selected(s, layout, policy).to_multiset() == ta.to_multiset().add(
                tc.to_multiset(),
            ).add(tr.to_multiset())
            &&& ta.len() == if attributes < layout.character_start {
                attributes as nat
            } else {
                layout.character_start as nat
            }
            &&& tc.len() == if characters < layout.rating_start - layout.character_start {
                characters as nat
            } else {
                (layout.rating_start - layout.character_start) as nat
            }
            &&& tr.len() == if rating < bits.len() - layout.rating_start {
                rating as nat
            } else {
                (bits.len() - layout.rating_start) as nat
            }
            &&& forall|k: int|
                0 <= k < ta.len() ==> 1 <= (#[trigger] ta[k]).tag_id <= layout.character_start
            &&& forall|k: int|
                0 <= k < tc.len() ==> layout.character_start < (#[trigger] tc[k]).tag_id
                    <= layout.rating_start
            &&& forall|k: int|
                0 <= k < tr.len() ==> layout.rating_start < (#[trigger] tr[k]).tag_id
        }),
{
    let s = indexed_scores(bits);
    let policy = Policy::FixedTopN { attributes, characters, rating };
    let (a, c, g) = (attributes_of(s, layout), characters_of(s, layout), rating_of(s, layout));
    let ta = top_n(a, attributes as nat);
    let tc = top_n(c, characters as nat);
    let tr = top_n(g, rating as nat);
    lemma_selected_ascending_ids(s, layout, policy);
    lemma_multiset_commutative(ta + tc, tr);
    lemma_multiset_commutative(ta, tc);
    lemma_top_n_keeps_best(a, attributes as nat);
    lemma_top_n_keeps_best(c, characters as nat);
    lemma_top_n_keeps_best(g, rating as nat);
    lemma_top_n_from_segment(a, attributes as nat);
    lemma_top_n_from_segment(c, characters as nat);
    lemma_top_n_from_segment(g, rating as nat);
    assert forall|k: int| 0 <= k < ta.len() implies 1 <= (#[trigger] ta[k]).tag_id
        <= layout.character_start by {
        assert(a.contains(ta[k]));
        let m = choose|m: int| 0 <= m < a.len() && a[m] == ta[k];
        assert(a[m] == s[m]);
    }
    assert forall|k: int| 0 <= k < tc.len() implies layout.character_start < (
    #[trigger] tc[k]).tag_id <= layout.rating_start by {
        assert(c.contains(tc[k]));
        let m = choose|m: int| 0 <= m < c.len() && c[m] == tc[k];
        assert(c[m] == s[m + layout.character_start]);
    }
    assert forall|k: int| 0 <= k < tr.len() implies layout.rating_start < (
    #[trigger] tr[k]).tag_id by {
        assert(g.contains(tr[k]));
        let m = choose|m: int| 0 <= m < g.len() && g[m] == tr[k];
        assert(g[m] == s[m + layout.rating_start]);
    }
}

/// A sequence with the same elements as one without repeats has none either.
proof fn lemma_permutation_keeps_distinct(a: Seq<ScoredTag>, b: Seq<ScoredTag>)
    requires
        a.no_duplicates(),
        a.to_multiset() == b.to_multiset(),
    ensures
        b.no_duplicates(),
        forall|k: int| 0 <= k < b.len() ==> a.contains(#[trigger] b[k]),
{
    broadcast use group_to_multiset_ensures;

    a.lemma_multiset_has_no_duplicates();
    b.lemma_multiset_has_no_duplicates_conv();
    assert forall|k: int| 0 <= k < b.len() implies a.contains(#[trigger] b[k]) by {
        assert(b.contains(b[k]));
        assert(b.to_multiset().count(b[k]) > 0);
    }
}

/// The best `n` of a segment without repeats have no repeats.
proof fn lemma_top_n_distinct(s: Seq<ScoredTag>, n: nat)
    requires
        s.no_duplicates(),
    ensures
        top_n(s, n).no_duplicates(),
{
    lemma_sort_keeps_elements(s, TagOrder::ByRank);
    lemma_permutation_keeps_distinct(s, ranked(s));
}

/// Under the fixed policy, on a score vector whose ids are its class indices
/// plus one, the final list's tag ids are strictly ascending: whichever
/// segment an entry came from, no two entries share an id.
pub proof fn lemma_fixed_selection_strictly_ascending(
    bits: Seq<u32>,
    layout: SegmentLayout,
    attributes: usize,
    characters: usize,
    rating: usize,
)
    requires
        layout_fits(bits.len(), layout),
        bits.len() <= usize::MAX,
    ensures
        ({
            let r = selected(
                indexed_scores(bits),
                layout,
                Policy::FixedTopN { attributes, characters, rating },
            );
            forall|i: int, j: int|
                0 <= i < j < r.len() ==> (#[trigger] r[i]).tag_id < (#[trigger] r[j]).tag_id
        }),
{
    let s = indexed_scores(bits);
    let policy = Policy::FixedTopN { attributes, characters, rating };
    let (a, c, g) = (attributes_of(s, layout), characters_of(s, layout), rating_of(s, layout));
    let ta = top_n(a, attributes as nat);
    let tc = top_n(c, characters as nat);
    let tr = top_n(g, rating as nat);
    let k = kept(s, layout, policy);
    let r = selected(s, layout, policy);
    lemma_fixed_selection_by_segment(bits, layout, attributes, characters, rating);
    lemma_selected_ascending_ids(s, layout, policy);
    assert(a.no_duplicates());
    assert(c.no_duplicates()) by {
        assert forall|x: int, y: int| 0 <= x < c.len() && 0 <= y < c.len() && x != y implies c[x]
            != c[y] by {
            assert(c[x] == s[x + layout.character_start]);
            assert(c[y] == s[y + layout.character_start]);
        }
    }
    assert(g.no_duplicates()) by {
        assert forall|x: int, y: int| 0 <= x < g.len() && 0 <= y < g.len() && x != y implies g[x]
            != g[y] by {
            assert(g[x] == s[x + layout.rating_start]);
            assert(g[y] == s[y + layout.rating_start]);
        }
    }
    lemma_top_n_distinct(a, attributes as nat);
    lemma_top_n_distinct(c, characters as nat);
    lemma_top_n_distinct(g, rating as nat);
    lemma_top_n_from_segment(a, attributes as nat);
    lemma_top_n_from_segment(c, characters as nat);
    lemma_top_n_from_segment(g, rating as nat);
    assert(k == ta + tc + tr);
    assert(k.no_duplicates()) by {
        assert forall|x: int, y: int| 0 <= x < k.len() && 0 <= y < k.len() && x != y implies k[x]
            != k[y] by {
            let la = ta.len() as int;
            let lc = tc.len() as int;
            if x < la && y < la {
                assert(k[x] == ta[x] && k[y] == ta[y]);
            } else if la <= x < la + lc && la <= y < la + lc {
                assert(k[x] == tc[x - la] && k[y] == tc[y - la]);
            } else if x >= la + lc && y >= la + lc {
                assert(k[x] == tr[x - la - lc] && k[y] == tr[y - la - lc]);
            } else {
                if x < la {
                    assert(k[x] == ta[x]);
                } else if x < la + lc {
                    assert(k[x] == tc[x - la]);
                } else {
                    assert(k[x] == tr[x - la - lc]);
                }
                if y < la {
                    assert(k[y] == ta[y]);
                } else if y < la + lc {
                    assert(k[y] == tc[y - la]);
                } else {
                    assert(k[y] == tr[y - la - lc]);
                }
            }
        }
    }
    lemma_permutation_keeps_distinct(k, r);
    assert forall|i: int, j: int| 0 <= i < j < r.len() implies (#[trigger] r[i]).tag_id < (
    #[trigger] r[j]).tag_id by {
        if r[i].tag_id == r[j].tag_id {
            assert(r[i] != r[j]);
            assert(r[i].score_bits != r[j].score_bits);
            assert(k.contains(r[i]));
            assert(k.contains(r[j]));
            let xi = choose|x: int| 0 <= x < k.len() && k[x] == r[i];
            let xj = choose|x: int| 0 <= x < k.len() && k[x] == r[j];
            let la = ta.len() as int;
            let lc = tc.len() as int;
            assert(forall|t: ScoredTag| #[trigger] k.contains(t) ==> s.contains(t)) by {
                assert forall|t: ScoredTag| #[trigger] k.contains(t) implies s.contains(t) by {
                    let x = choose|x: int| 0 <= x < k.len() && k[x] == t;
                    if x < la {
                        assert(k[x] == ta[x]);
                        assert(a.contains(ta[x]));
                        let m = choose|m: int| 0 <= m < a.len() && a[m] == ta[x];
                        assert(s[m] == t);
                    } else if x < la + lc {
                        assert(k[x] == tc[x - la]);
                        assert(c.contains(tc[x - la]));
                        let m = choose|m: int| 0 <= m < c.len() && c[m] == tc[x - la];
                        assert(s[m + layout.character_start] == t);
                    } else {
                        assert(k[x] == tr[x - la - lc]);
                        assert(g.contains(tr[x - la - lc]));
                        let m = choose|m: int| 0 <= m < g.len() && g[m] == tr[x - la - lc];
                        assert(s[m + layout.rating_start] == t);
                    }
                }
            }
            assert(s.contains(r[i]));
            assert(s.contains(r[j]));
            let mi = choose|m: int| 0 <= m < s.len() && s[m] == r[i];
            let mj = choose|m: int| 0 <= m < s.len() && s[m] == r[j];
            assert(mi == mj);
        }
    }
}

/// Pairs each confidence with the tag id of its class.
pub fn scores_from_bits(bits: &Vec<u32>) -> (r: Vec<ScoredTag>)
    ensures
        r@ == indexed_scores(bits@),
{
    let mut r: Vec<ScoredTag> = Vec::new();
    let mut i: usize = 0;
    while i < bits.len()
        invariant
            i <= bits.len(),
            r@ == indexed_scores(bits@).take(i as int),
        decreases bits.len() - i,
    {
        r.push(ScoredTag { score_bits: bits[i], tag_id: i + 1 });
        i = i + 1;
        assert(r@ =~= indexed_scores(bits@).take(i as int));
    }
    assert(r@ =~= indexed_scores(bits@));
    r
}

/// `segment` in rank order.
pub fn rank_segment(segment: &Vec<ScoredTag>) -> (r: Vec<ScoredTag>)
    ensures
        r@ == ranked(segment@),
{
    sort_tags(segment, TagOrder::ByRank)
}

/// The best `n` entries of `segment`, best first.
pub fn top_of_segment(segment: &Vec<ScoredTag>, n: usize) -> (r: Vec<ScoredTag>)
    ensures
        r@ == top_n(segment@, n as nat),
{
    let mut r = rank_segment(segment);
    proof {
        lemma_sort_keeps_elements(segment@, TagOrder::ByRank);
    }
    r.truncate(n);
    r
}

/// The three segments of a score vector, each in rank order.
pub struct RankedSegments {
    pub attributes: Vec<ScoredTag>,
    pub characters: Vec<ScoredTag>,
    pub rating: Vec<ScoredTag>,
}

/// Splits `scores` at the layout's offsets and ranks each part; fails with
/// `InferenceError` exactly when the offsets do not fit the vector.
pub fn rank_segments(scores: Vec<ScoredTag>, layout: SegmentLayout) -> (r: Result<
    RankedSegments,
    PipelineError,
>)
    ensures
        layout_fits(scores@.len(), layout) <==> r is Ok,
        !layout_fits(scores@.len(), layout) ==> r == Err::<RankedSegments, _>(
            PipelineError::InferenceError,
        ),
        r matches Ok(seg) ==> {
            &&& seg.attributes@ == ranked(attributes_of(scores@, layout))
            &&& seg.characters@ == ranked(characters_of(scores@, layout))
            &&& seg.rating@ == ranked(rating_of(scores@, layout))
        },
{
    if layout.character_start > layout.rating_start || layout.rating_start > scores.len() {
        return Err(PipelineError::InferenceError);
    }
    let ghost s = scores@;
    let mut attributes = scores;
    let rating = attributes.split_off(layout.rating_start);
    let characters = attributes.split_off(layout.character_start);
    assert(attributes@ =~= attributes_of(s, layout));
    assert(characters@ =~= characters_of(s, layout));
    assert(rating@ =~= rating_of(s, layout));
    Ok(
        RankedSegments {
            attributes: rank_segment(&attributes),
            characters: rank_segment(&characters),
            rating: rank_segment(&rating),
        },
    )
}

/// The entries of `scores` at or above the threshold, best first, at most
/// `max_count` of them.
pub fn threshold_cap(scores: &Vec<ScoredTag>, min_score_bits: u32, max_count: usize) -> (r: Vec<
    ScoredTag,
>)
    ensures
        r@ == thresholded(scores@, min_score_bits, max_count as nat),
{
    let ordered = rank_segment(scores);
    let ghost keep = meets_threshold(min_score_bits);
    let min_key = score_order_key(min_score_bits);
    let mut r: Vec<ScoredTag> = Vec::new();
    let mut i: usize = 0;
    proof {
        assert(r@ =~= ordered@.take(0).filter(keep)) by {
            reveal(Seq::filter);
        }
    }
    while i < ordered.len()
        invariant
            i <= ordered.len(),
            keep == meets_threshold(min_score_bits),
            min_key as nat == order_key(min_score_bits),
            r@ == ordered@.take(i as int).filter(keep),
        decreases ordered.len() - i,
    {
        let t = ordered[i];
        proof {
            assert(ordered@.take(i + 1) =~= ordered@.take(i as int).push(t));
            ordered@.take(i as int).lemma_filter_push(t, keep);
        }
        if score_order_key(t.score_bits) >= min_key {
            r.push(t);
        }
        i = i + 1;
    }
    proof {
        assert(ordered@.take(i as int) =~= ordered@);
    }
    r.truncate(max_count);
    r
}

/// The tags that survive `policy`, in ascending tag-id order. Under the fixed
/// policy the layout must fit the vector, else the result is `InferenceError`.
pub fn select_tags(scores: Vec<ScoredTag>, layout: SegmentLayout, policy: Policy) -> (r: Result<
    Vec<ScoredTag>,
    PipelineError,
>)
    ensures
        r is Ok <==> (policy is ThresholdCap || layout_fits(scores@.len(), layout)),
        r is Err ==> r == Err::<Vec<ScoredTag>, _>(PipelineError::InferenceError),
        r matches Ok(v) ==> v@ == selected(scores@, layout, policy),
{
    match policy {
        Policy::FixedTopN { attributes, characters, rating } => {
            let ghost s = scores@;
            let segments = rank_segments(scores, layout);
            match segments {
                Err(e) => Err(e),
                Ok(seg) => {
                    let ghost (a, c, g) = (
                        attributes_of(s, layout),
                        characters_of(s, layout),
                        rating_of(s, layout),
                    );
                    let mut top = seg.attributes;
                    let mut mid = seg.characters;
                    let mut last = seg.rating;
                    proof {
                        lemma_sort_keeps_elements(a, TagOrder::ByRank);
                        lemma_sort_keeps_elements(c, TagOrder::ByRank);
                        lemma_sort_keeps_elements(g, TagOrder::ByRank);
                    }
                    top.truncate(attributes);
                    mid.truncate(characters);
                    last.truncate(rating);
                    assert(top@ =~= top_n(a, attributes as nat));
                    assert(mid@ =~= top_n(c, characters as nat));
                    assert(last@ =~= top_n(g, rating as nat));
                    let ghost joined = top@ + mid@ + last@;
                    top.append(&mut mid);
                    top.append(&mut last);
                    assert(top@ =~= joined);
                    Ok(sort_tags(&top, TagOrder::ById))
                },
            }
        },
        Policy::ThresholdCap { min_score_bits, max_count } => {
            let kept = threshold_cap(&scores, min_score_bits, max_count);
            Ok(sort_tags(&kept, TagOrder::ById))
        },
    }
}

} // verus!
