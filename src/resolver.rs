use vstd::prelude::*;
use vstd::relations::total_ordering;
use vstd::seq_lib::group_to_multiset_ensures;

use crate::error::PipelineError;
use crate::ranker::ScoredTag;
use crate::sorting::insertion_sort;

verus! {

/// A row of the tag catalog: a tag id and its display name.
#[derive(Debug)]
pub struct TagRow {
    pub name: String,
    pub tag_id: i64,
}

/// A ranked tag with its display name; `name` is `None` when the catalog has
/// no row for the id, so an unknown tag stays in the list, marked as such.
#[derive(Debug)]
pub struct ResolvedTag {
    pub name: Option<String>,
    pub score_bits: u32,
    pub tag_id: usize,
}

pub open spec fn name_view(name: Option<String>) -> Option<Seq<char>> {
    match name {
        Some(n) => Some(n@),
        None => None,
    }
}

/// The name of the first catalog row whose id is `tag_id`, if any.
pub open spec fn catalog_name(rows: Seq<TagRow>, tag_id: usize) -> Option<Seq<char>>
    decreases rows.len(),
{
    if rows.len() == 0 {
        None
    } else if rows[0].tag_id as int == tag_id as int {
        Some(rows[0].name@)
    } else {
        catalog_name(rows.drop_first(), tag_id)
    }
}

/// No two catalog rows share an id.
pub open spec fn ids_unique(rows: Seq<TagRow>) -> bool {
    forall|a: int, b: int|
        0 <= a < b < rows.len() ==> #[trigger] rows[a].tag_id != #[trigger] rows[b].tag_id
}

/// The catalog gives no name exactly when no row has the id; with unique ids
/// it gives the name of the row that has it.
pub proof fn lemma_catalog_name_by_id(rows: Seq<TagRow>, tag_id: usize)
    ensures
        catalog_name(rows, tag_id) is None <==> forall|k: int|
            0 <= k < rows.len() ==> #[trigger] rows[k].tag_id as int != tag_id as int,
        ids_unique(rows) ==> forall|k: int|
            0 <= k < rows.len() && #[trigger] rows[k].tag_id as int == tag_id as int
                ==> catalog_name(rows, tag_id) == Some(rows[k].name@),
    decreases rows.len(),
{
    if rows.len() > 0 {
        let rest = rows.drop_first();
        lemma_catalog_name_by_id(rest, tag_id);
        assert forall|k: int| 0 < k < rows.len() implies rows[k] == #[trigger] rest[k - 1] by {}
        if ids_unique(rows) {
            assert(ids_unique(rest)) by {
                assert forall|a: int, b: int| 0 <= a < b < rest.len() implies #[trigger] rest[a].tag_id
                    != #[trigger] rest[b].tag_id by {
                    assert(rows[a + 1].tag_id != rows[b + 1].tag_id);
                }
            }
            assert forall|k: int|
                0 <= k < rows.len() && #[trigger] rows[k].tag_id as int == tag_id as int implies catalog_name(
                rows,
                tag_id,
            ) == Some(rows[k].name@) by {
                if k > 0 {
                    assert(rows[0].tag_id != rows[k].tag_id);
                    assert(rest[k - 1].tag_id as int == tag_id as int);
                }
            }
        }
        if catalog_name(rows, tag_id) is None {
            assert forall|k: int| 0 <= k < rows.len() implies #[trigger] rows[k].tag_id as int
                != tag_id as int by {
                if k > 0 {
                    assert(rest[k - 1].tag_id as int != tag_id as int);
                }
            }
        }
    }
}

/// Names are matched by id, not by position: two catalogs with unique ids and
/// the same rows, in whatever order, name every tag id alike.
pub proof fn lemma_row_order_irrelevant(rows1: Seq<TagRow>, rows2: Seq<TagRow>, tag_id: usize)
    requires
        ids_unique(rows1),
        ids_unique(rows2),
        rows1.to_multiset() == rows2.to_multiset(),
    ensures
        catalog_name(rows1, tag_id) == catalog_name(rows2, tag_id),
{
    broadcast use group_to_multiset_ensures;

    lemma_catalog_name_by_id(rows1, tag_id);
    lemma_catalog_name_by_id(rows2, tag_id);
    if exists|k: int| 0 <= k < rows1.len() && #[trigger] rows1[k].tag_id as int == tag_id as int {
        let k = choose|k: int|
            0 <= k < rows1.len() && #[trigger] rows1[k].tag_id as int == tag_id as int;
        assert(rows1.contains(rows1[k]));
        assert(rows1.to_multiset().count(rows1[k]) > 0);
        assert(rows2.to_multiset().count(rows1[k]) > 0);
        assert(rows2.contains(rows1[k]));
        let j = choose|j: int| 0 <= j < rows2.len() && rows2[j] == rows1[k];
        assert(rows2[j].tag_id as int == tag_id as int);
    } else if exists|j: int| 0 <= j < rows2.len() && #[trigger] rows2[j].tag_id as int == tag_id as int {
        let j = choose|j: int|
            0 <= j < rows2.len() && #[trigger] rows2[j].tag_id as int == tag_id as int;
        assert(rows2.contains(rows2[j]));
        assert(rows2.to_multiset().count(rows2[j]) > 0);
        assert(rows1.to_multiset().count(rows2[j]) > 0);
        assert(rows1.contains(rows2[j]));
        let k = choose|k: int| 0 <= k < rows1.len() && rows1[k] == rows2[j];
        assert(rows1[k].tag_id as int == tag_id as int);
    }
}

/// A tag with its position in the list it came from.
#[derive(Clone, Copy, Debug, PartialEq, Eq, Structural)]
pub struct PositionedTag {
    pub position: usize,
    pub tag: ScoredTag,
}

/// Ascending tag id, equal ids by position; the confidence only separates
/// entries that agree on both, which never happens within one list.
pub open spec fn positioned_le(a: PositionedTag, b: PositionedTag) -> bool {
    a.tag.tag_id < b.tag.tag_id || (a.tag.tag_id == b.tag.tag_id && (a.position < b.position || (
    a.position == b.position && a.tag.score_bits <= b.tag.score_bits)))
}

pub open spec fn positioned_rel() -> spec_fn(PositionedTag, PositionedTag) -> bool {
    |a: PositionedTag, b: PositionedTag| positioned_le(a, b)
}

/// Each tag of `s` with its index.
pub open spec fn positioned(s: Seq<ScoredTag>) -> Seq<PositionedTag> {
    Seq::new(s.len(), |i: int| PositionedTag { position: i as usize, tag: s[i] })
}

/// The tags of `s` with their indices, by ascending tag id, equal ids in the
/// order of `s`.
pub open spec fn id_sorted_positions(s: Seq<ScoredTag>) -> Seq<PositionedTag> {
    positioned(s).sort_by(positioned_rel())
}

/// `s` sorted stably by tag id.
pub open spec fn stably_by_id(s: Seq<ScoredTag>) -> Seq<ScoredTag> {
    id_sorted_positions(s).map_values(|p: PositionedTag| p.tag)
}

pub proof fn lemma_positioned_total()
    ensures
        total_ordering(positioned_rel()),
{
    let r = positioned_rel();
    assert forall|a: PositionedTag, b: PositionedTag| #[trigger] r(a, b) && #[trigger] r(
        b,
        a,
    ) implies a == b by {
        assert(a.tag == b.tag);
    }
}

fn positioned_before(a: &PositionedTag, b: &PositionedTag) -> (r: bool)
    ensures
        r == positioned_le(*a, *b),
{
    a.tag.tag_id < b.tag.tag_id || (a.tag.tag_id == b.tag.tag_id && (a.position < b.position || (
    a.position == b.position && a.tag.score_bits <= b.tag.score_bits)))
}

fn sort_positioned(items: &Vec<PositionedTag>) -> (r: Vec<PositionedTag>)
    ensures
        r@ == items@.sort_by(positioned_rel()),
{
    proof {
        lemma_positioned_total();
    }
    let before = |a: &PositionedTag, b: &PositionedTag| -> (r: bool)
        ensures
            r == (positioned_rel())(*a, *b),
        { positioned_before(a, b) };
    insertion_sort(items, &before, Ghost(positioned_rel()))
}

/// `tags` sorted by ascending tag id; tags with equal ids keep their order.
pub fn sort_by_id_stable(tags: &Vec<ScoredTag>) -> (r: Vec<ScoredTag>)
    ensures
        r@ == stably_by_id(tags@),
{
    let mut items: Vec<PositionedTag> = Vec::new();
    let mut i: usize = 0;
    while i < tags.len()
        invariant
            i <= tags@.len(),
            items@ == positioned(tags@).take(i as int),
        decreases tags.len() - i,
    {
        items.push(PositionedTag { position: i, tag: tags[i] });
        i = i + 1;
        assert(items@ =~= positioned(tags@).take(i as int));
    }
    assert(items@ =~= positioned(tags@));
    let sorted = sort_positioned(&items);
    let mut r: Vec<ScoredTag> = Vec::new();
    let mut k: usize = 0;
    while k < sorted.len()
        invariant
            k <= sorted@.len(),
            sorted@ == id_sorted_positions(tags@),
            r@ == stably_by_id(tags@).take(k as int),
        decreases sorted.len() - k,
    {
        r.push(sorted[k].tag);
        k = k + 1;
        assert(r@ =~= stably_by_id(tags@).take(k as int));
    }
    assert(r@ =~= stably_by_id(tags@));
    r
}

/// The stable sort by id: ids ascend, each entry is the input's entry at a
/// position of its own (so no entry is lost or doubled), and entries with
/// equal ids keep their input order.
pub proof fn lemma_stably_by_id(s: Seq<ScoredTag>)
    requires
        s.len() <= usize::MAX,
    ensures
        stably_by_id(s).len() == s.len(),
        forall|k: int|
            0 <= k < s.len() ==> 0 <= (#[trigger] id_sorted_positions(s)[k]).position < s.len()
                && stably_by_id(s)[k] == s[id_sorted_positions(s)[k].position as int],
        forall|i: int, j: int|
            0 <= i < j < s.len() ==> (#[trigger] stably_by_id(s)[i]).tag_id <= (
            #[trigger] stably_by_id(s)[j]).tag_id,
        forall|i: int, j: int|
            0 <= i < j < s.len() && (#[trigger] stably_by_id(s)[i]).tag_id == (
            #[trigger] stably_by_id(s)[j]).tag_id ==> id_sorted_positions(s)[i].position
                < id_sorted_positions(s)[j].position,
        forall|i: int, j: int|
            0 <= i < s.len() && 0 <= j < s.len() && i != j ==> (
            #[trigger] id_sorted_positions(s)[i]).position != (
            #[trigger] id_sorted_positions(s)[j]).position,
{
    broadcast use group_to_multiset_ensures;

    let ps = positioned(s);
    let q = id_sorted_positions(s);
    let le = positioned_rel();
    lemma_positioned_total();
    ps.lemma_sort_by_ensures(le);
    assert(ps.to_multiset().len() == ps.len());
    assert(q.to_multiset().len() == q.len());
    assert(ps.no_duplicates()) by {
        assert forall|i: int, j: int| 0 <= i < ps.len() && 0 <= j < ps.len() && i != j implies ps[i]
            != ps[j] by {
            assert(ps[i].position != ps[j].position);
        }
    }
    ps.lemma_multiset_has_no_duplicates();
    q.lemma_multiset_has_no_duplicates_conv();
    assert forall|k: int| 0 <= k < s.len() implies 0 <= (#[trigger] q[k]).position < s.len()
        && stably_by_id(s)[k] == s[q[k].position as int] by {
        assert(q.contains(q[k]));
        assert(q.to_multiset().count(q[k]) > 0);
        assert(ps.to_multiset().count(q[k]) > 0);
        assert(ps.contains(q[k]));
        let m = choose|m: int| 0 <= m < ps.len() && ps[m] == q[k];
        assert(ps[m].position == m);
    }
    assert forall|i: int, j: int| 0 <= i < j < s.len() implies (
    #[trigger] stably_by_id(s)[i]).tag_id <= (#[trigger] stably_by_id(s)[j]).tag_id by {
        assert(le(q[i], q[j]));
    }
    assert forall|i: int, j: int|
        0 <= i < j < s.len() && (#[trigger] stably_by_id(s)[i]).tag_id == (
        #[trigger] stably_by_id(s)[j]).tag_id implies q[i].position < q[j].position by {
        assert(le(q[i], q[j]));
        assert(q[i] != q[j]);
        if q[i].position == q[j].position {
            let mi = choose|m: int| 0 <= m < ps.len() && ps[m] == q[i];
            let mj = choose|m: int| 0 <= m < ps.len() && ps[m] == q[j];
        }
    }
    assert forall|i: int, j: int| 0 <= i < s.len() && 0 <= j < s.len() && i != j implies (
    #[trigger] q[i]).position != (#[trigger] q[j]).position by {
        assert(q[i] != q[j]);
    }
}

/// `r` is `t` with the name the catalog gives its id.
pub open spec fn resolves(r: ResolvedTag, t: ScoredTag, rows: Seq<TagRow>) -> bool {
    &&& r.score_bits == t.score_bits
    &&& r.tag_id == t.tag_id
    &&& name_view(r.name) == catalog_name(rows, t.tag_id)
}

/// The ids to look up, one per tag, in the tags' order (duplicates kept).
pub fn catalog_query(tags: &Vec<ScoredTag>) -> (r: Vec<i64>)
    requires
        forall|i: int| 0 <= i < tags@.len() ==> #[trigger] tags@[i].tag_id <= i64::MAX,
    ensures
        r@.len() == tags@.len(),
        forall|i: int| 0 <= i < tags@.len() ==> r@[i] as int == #[trigger] tags@[i].tag_id as int,
{
    let mut r: Vec<i64> = Vec::new();
    let mut i: usize = 0;
    while i < tags.len()
        invariant
            i <= tags@.len(),
            r@.len() == i,
            forall|k: int| 0 <= k < tags@.len() ==> #[trigger] tags@[k].tag_id <= i64::MAX,
            forall|k: int| 0 <= k < i ==> r@[k] as int == #[trigger] tags@[k].tag_id as int,
        decreases tags.len() - i,
    {
        r.push(tags[i].tag_id as i64);
        i = i + 1;
    }
    r
}

/// The name the catalog rows give `tag_id`, by id and not by position.
pub fn lookup_name(rows: &Vec<TagRow>, tag_id: usize) -> (r: Option<String>)
    ensures
        name_view(r) == catalog_name(rows@, tag_id),
{
    let mut k: usize = 0;
    assert(rows@.skip(0) =~= rows@);
    while k < rows.len()
        invariant
            k <= rows@.len(),
            catalog_name(rows@, tag_id) == catalog_name(rows@.skip(k as int), tag_id),
        decreases rows.len() - k,
    {
        let row = &rows[k];
        assert(rows@.skip(k as int)[0] == rows@[k as int]);
        assert(rows@.skip(k as int).drop_first() =~= rows@.skip(k + 1));
        if row.tag_id >= 0 && row.tag_id as u64 == tag_id as u64 {
            return Some(row.name.clone());
        }
        k = k + 1;
    }
    assert(rows@.skip(k as int).len() == 0);
    None
}

/// Each tag with the name the catalog rows give its id; the result has one
/// entry per tag, by ascending tag id, tags with equal ids in their order.
pub fn resolve_tags(tags: &Vec<ScoredTag>, rows: &Vec<TagRow>) -> (r: Vec<ResolvedTag>)
    ensures
        r@.len() == tags@.len(),
        forall|i: int|
            0 <= i < tags@.len() ==> resolves(#[trigger] r@[i], stably_by_id(tags@)[i], rows@),
{
    let count = tags.len();
    let ordered = sort_by_id_stable(tags);
    proof {
        assert(tags@.len() == count);
        lemma_stably_by_id(tags@);
    }
    resolve_in_order(&ordered, rows)
}

/// Each tag with the name the catalog rows give its id, in the given order.
fn resolve_in_order(tags: &Vec<ScoredTag>, rows: &Vec<TagRow>) -> (r: Vec<ResolvedTag>)
    ensures
        r@.len() == tags@.len(),
        forall|i: int| 0 <= i < tags@.len() ==> resolves(#[trigger] r@[i], tags@[i], rows@),
{
    let mut r: Vec<ResolvedTag> = Vec::new();
    let mut i: usize = 0;
    while i < tags.len()
        invariant
            i <= tags@.len(),
            r@.len() == i,
            forall|k: int| 0 <= k < i ==> resolves(#[trigger] r@[k], tags@[k], rows@),
        decreases tags.len() - i,
    {
        let t = tags[i];
        let name = lookup_name(rows, t.tag_id);
        r.push(ResolvedTag { name, score_bits: t.score_bits, tag_id: t.tag_id });
        i = i + 1;
    }
    r
}

/// Resolves the tags, by ascending tag id, against the outcome of the catalog
/// lookup. A failed
/// lookup fails the whole request with `CatalogUnavailable`: no tag is
/// returned without its name.
pub fn resolve_lookup(tags: &Vec<ScoredTag>, rows: Option<Vec<TagRow>>) -> (r: Result<
    Vec<ResolvedTag>,
    PipelineError,
>)
    ensures
        rows is None ==> r == Err::<Vec<ResolvedTag>, _>(PipelineError::CatalogUnavailable),
        rows matches Some(found) ==> r matches Ok(v) && v@.len() == tags@.len() && forall|i: int|
            0 <= i < tags@.len() ==> resolves(#[trigger] v@[i], stably_by_id(tags@)[i], found@),
{
    match rows {
        None => Err(PipelineError::CatalogUnavailable),
        Some(found) => Ok(resolve_tags(tags, &found)),
    }
}

} // verus!
