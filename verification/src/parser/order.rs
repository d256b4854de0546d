//! The order of texts and the sorting of rows by path.
use vstd::prelude::*;
use crate::parser::data::OutputRow;
use crate::parser::data::OutputRowView;
use crate::parser::data::rows_view;
use crate::text::lemma_text_le_antisymmetric;
use crate::text::lemma_text_le_reflexive;
use crate::text::lemma_text_le_total;
use crate::text::lemma_text_le_transitive;
use crate::text::text_at_or_before;
use crate::text::text_le;

verus! {

/// Whether the rows stand in ascending order of their paths.
pub open spec fn sorted_by_path(rows: Seq<OutputRowView>) -> bool {
    forall|i: int, j: int| 0 <= i < j < rows.len() ==> text_le(#[trigger] rows[i].path, #[trigger] rows[j].path)
}

/// The test that a row has the given path.
pub open spec fn with_path(path: Seq<char>) -> spec_fn(OutputRowView) -> bool {
    |r: OutputRowView| r.path == path
}

/// Whether `sorted` is `rows` sorted by path, rows of one path keeping the
/// order they had: it is in ascending order, as long as `rows`, and for each
/// path holds the rows of that path as `rows` holds them.
pub open spec fn sorts_by_path(rows: Seq<OutputRowView>, sorted: Seq<OutputRowView>) -> bool {
    &&& sorted_by_path(sorted)
    &&& sorted.len() == rows.len()
    &&& forall|path: Seq<char>| #[trigger] sorted.filter(with_path(path)) == rows.filter(with_path(path))
}

/// In a sorted sequence, a row that occurs is at or before the last row.
proof fn lemma_before_last(rows: Seq<OutputRowView>, x: OutputRowView)
    requires
        sorted_by_path(rows),
        rows.contains(x),
    ensures
        text_le(x.path, rows.last().path),
{
    let i = choose|i: int| 0 <= i < rows.len() && rows[i] == x;
    if i < rows.len() - 1 {
        assert(text_le(rows[i].path, rows[rows.len() - 1].path));
    } else {
        lemma_text_le_reflexive(x.path);
    }
}

/// There is one way to sort rows by path with rows of one path kept in
/// their order: two sorted sequences that hold, for each path, the same
/// rows in the same order are equal.
pub proof fn lemma_sorted_rows_unique(first: Seq<OutputRowView>, second: Seq<OutputRowView>)
    requires
        sorted_by_path(first),
        sorted_by_path(second),
        forall|path: Seq<char>| #[trigger] first.filter(with_path(path)) == second.filter(with_path(path)),
    ensures
        first == second,
    decreases first.len(),
{
    reveal(Seq::filter);
    if first.len() == 0 {
        if second.len() > 0 {
            let keep = with_path(second.last().path);
            assert(first.filter(keep) == second.filter(keep));
            assert(second.filter(keep).last() == second.last());
        }
        assert(first =~= second);
    } else if second.len() == 0 {
        let keep = with_path(first.last().path);
        assert(first.filter(keep) == second.filter(keep));
        assert(first.filter(keep).last() == first.last());
    } else {
        let x = first.last();
        let y = second.last();
        let keep_x = with_path(x.path);
        let keep_y = with_path(y.path);
        assert(first.filter(keep_x) == second.filter(keep_x));
        assert(first.filter(keep_y) == second.filter(keep_y));
        assert(first.filter(keep_x).last() == x);
        assert(second.filter(keep_y).last() == y);
        assert(second.contains(x)) by {
            let kept = second.filter(keep_x);
            assert(kept[kept.len() - 1] == x);
            assert(kept.contains(x));
            second.lemma_filter_contains_rev(keep_x, x);
        }
        assert(first.contains(y)) by {
            let kept = first.filter(keep_y);
            assert(kept[kept.len() - 1] == y);
            assert(kept.contains(y));
            first.lemma_filter_contains_rev(keep_y, y);
        }
        lemma_before_last(second, x);
        lemma_before_last(first, y);
        lemma_text_le_antisymmetric(x.path, y.path);
        assert(x == y);
        let head = first.drop_last();
        let other = second.drop_last();
        assert forall|i: int, j: int| 0 <= i < j < head.len() implies text_le(
            #[trigger] head[i].path,
            #[trigger] head[j].path,
        ) by {
            assert(head[i] == first[i] && head[j] == first[j]);
        }
        assert forall|i: int, j: int| 0 <= i < j < other.len() implies text_le(
            #[trigger] other[i].path,
            #[trigger] other[j].path,
        ) by {
            assert(other[i] == second[i] && other[j] == second[j]);
        }
        assert forall|path: Seq<char>| #[trigger]
            head.filter(with_path(path)) == other.filter(with_path(path)) by {
            let keep = with_path(path);
            assert(first.filter(keep) == second.filter(keep));
            if path == x.path {
                assert(head.filter(keep).push(x).drop_last() =~= head.filter(keep));
                assert(other.filter(keep).push(y).drop_last() =~= other.filter(keep));
            }
        }
        lemma_sorted_rows_unique(head, other);
        assert(first =~= head.push(x));
        assert(second =~= other.push(y));
    }
}

/// Sorting does not depend on how rows of different paths are interleaved:
/// two sequences that hold, for each path, the same rows in the same order
/// have the same sorted form.
pub proof fn lemma_sort_ignores_interleaving(
    first: Seq<OutputRowView>,
    second: Seq<OutputRowView>,
    first_sorted: Seq<OutputRowView>,
    second_sorted: Seq<OutputRowView>,
)
    requires
        sorts_by_path(first, first_sorted),
        sorts_by_path(second, second_sorted),
        forall|path: Seq<char>| #[trigger] first.filter(with_path(path)) == second.filter(with_path(path)),
    ensures
        first_sorted == second_sorted,
{
    assert forall|path: Seq<char>| #[trigger]
        first_sorted.filter(with_path(path)) == second_sorted.filter(with_path(path)) by {
        assert(first_sorted.filter(with_path(path)) == first.filter(with_path(path)));
        assert(second_sorted.filter(with_path(path)) == second.filter(with_path(path)));
    }
    lemma_sorted_rows_unique(first_sorted, second_sorted);
}

/// The sorted form of rows that are sorted already is the rows themselves.
pub proof fn lemma_sorted_stays(rows: Seq<OutputRowView>, sorted: Seq<OutputRowView>)
    requires
        sorted_by_path(rows),
        sorts_by_path(rows, sorted),
    ensures
        sorted == rows,
{
    lemma_sorted_rows_unique(sorted, rows);
}

/// Placing `x` behind the last row of a sorted sequence that is at or before
/// it keeps the sequence sorted, and keeps the rows of each path in the
/// order in which appending `x` would have them.
proof fn lemma_place(rows: Seq<OutputRowView>, x: OutputRowView, j: int)
    requires
        sorted_by_path(rows),
        0 <= j <= rows.len(),
        forall|k: int| j <= k < rows.len() ==> !text_le(#[trigger] rows[k].path, x.path),
        j > 0 ==> text_le(rows[j - 1].path, x.path),
    ensures
        sorted_by_path(rows.insert(j, x)),
        forall|path: Seq<char>| #[trigger]
            rows.insert(j, x).filter(with_path(path)) == rows.push(x).filter(with_path(path)),
{
    let placed = rows.insert(j, x);
    assert forall|a: int, b: int| 0 <= a < b < placed.len() implies text_le(
        #[trigger] placed[a].path,
        #[trigger] placed[b].path,
    ) by {
        if b < j {
            assert(placed[a] == rows[a] && placed[b] == rows[b]);
        } else if b == j {
            assert(placed[a] == rows[a]);
            if a < j - 1 {
                assert(text_le(rows[a].path, rows[j - 1].path));
            } else {
                lemma_text_le_reflexive(rows[a].path);
            }
            lemma_text_le_transitive(rows[a].path, rows[j - 1].path, x.path);
        } else if a < j {
            assert(placed[a] == rows[a] && placed[b] == rows[b - 1]);
        } else if a == j {
            assert(placed[b] == rows[b - 1]);
            lemma_text_le_total(rows[b - 1].path, x.path);
        } else {
            assert(placed[a] == rows[a - 1] && placed[b] == rows[b - 1]);
        }
    }
    let head = rows.take(j);
    let tail = rows.skip(j);
    assert(placed =~= head + seq![x] + tail);
    assert(rows.push(x) =~= head + tail + seq![x]);
    assert forall|path: Seq<char>| #[trigger]
        placed.filter(with_path(path)) == rows.push(x).filter(with_path(path)) by {
        let keep = with_path(path);
        Seq::filter_distributes_over_add(head + seq![x], tail, keep);
        Seq::filter_distributes_over_add(head, seq![x], keep);
        Seq::filter_distributes_over_add(head + tail, seq![x], keep);
        Seq::filter_distributes_over_add(head, tail, keep);
        if x.path == path {
            assert forall|k: int| 0 <= k < tail.len() implies !keep(#[trigger] tail[k]) by {
                assert(tail[k] == rows[j + k]);
                lemma_text_le_reflexive(x.path);
            }
            assert(tail.all(|r: OutputRowView| !keep(r)));
            tail.lemma_all_neg_filter_empty(keep);
            assert(tail.filter(keep) =~= Seq::<OutputRowView>::empty());
            assert(head.filter(keep) + seq![x].filter(keep) + tail.filter(keep) =~= head.filter(keep)
                + tail.filter(keep) + seq![x].filter(keep));
        } else {
            assert(seq![x].all(|r: OutputRowView| !keep(r)));
            seq![x].lemma_all_neg_filter_empty(keep);
            assert(seq![x].filter(keep) =~= Seq::<OutputRowView>::empty());
            assert(head.filter(keep) + seq![x].filter(keep) + tail.filter(keep) =~= head.filter(keep)
                + tail.filter(keep) + seq![x].filter(keep));
        }
    }
}

/// Sorts the rows by path, ascending. Rows of one path keep the order they
/// had, and rows that are sorted already are left as they are.
pub fn sort_rows(rows: &mut Vec<OutputRow>)
    ensures
        sorts_by_path(rows_view(old(rows)@), rows_view(final(rows)@)),
        sorted_by_path(rows_view(old(rows)@)) ==> rows_view(final(rows)@) == rows_view(old(rows)@),
{
    let ghost given = rows_view(rows@);
    let mut i: usize = 0;
    proof {
        reveal(Seq::filter);
        assert(rows_view(rows@).take(0) =~= given.take(0));
        assert(rows_view(rows@).skip(0) =~= given.skip(0));
    }
    while i < rows.len()
        invariant
            0 <= i <= rows.len(),
            rows@.len() == given.len(),
            sorted_by_path(rows_view(rows@).take(i as int)),
            rows_view(rows@).skip(i as int) == given.skip(i as int),
            forall|path: Seq<char>| #[trigger]
                rows_view(rows@).take(i as int).filter(with_path(path)) == given.take(i as int).filter(
                    with_path(path),
                ),
        decreases rows.len() - i,
    {
        let ghost before = rows_view(rows@);
        let ghost x = before[i as int];
        let ghost prefix = before.take(i as int);
        assert(x == before.skip(i as int)[0]);
        assert(x == given[i as int]);
        let mut j: usize = i;
        while j > 0 && !text_at_or_before(rows[j - 1].path.as_str(), rows[i].path.as_str())
            invariant
                0 <= j <= i < rows.len(),
                before == rows_view(rows@),
                x == before[i as int],
                forall|k: int| j <= k < i ==> !text_le(#[trigger] before[k].path, x.path),
            decreases j,
        {
            j -= 1;
        }
        let row = rows.remove(i);
        rows.insert(j, row);
        proof {
            let after = rows_view(rows@);
            assert(forall|k: int| j <= k < prefix.len() ==> prefix[k] == before[k]);
            if j > 0 {
                assert(prefix[j - 1] == before[j - 1]);
            }
            lemma_place(prefix, x, j as int);
            assert(after.take(i + 1) =~= prefix.insert(j as int, x));
            assert(after.skip(i + 1) =~= before.skip(i + 1));
            assert(before.skip(i + 1) =~= before.skip(i as int).skip(1));
            assert(given.skip(i + 1) =~= given.skip(i as int).skip(1));
            assert(given.take(i + 1) =~= given.take(i as int) + seq![x]);
            assert(prefix.push(x) =~= prefix + seq![x]);
            assert forall|path: Seq<char>| #[trigger]
                after.take(i + 1).filter(with_path(path)) == given.take(i + 1).filter(with_path(path)) by {
                Seq::filter_distributes_over_add(given.take(i as int), seq![x], with_path(path));
                Seq::filter_distributes_over_add(prefix, seq![x], with_path(path));
            }
        }
        i += 1;
    }
    proof {
        assert(rows_view(rows@).take(i as int) =~= rows_view(rows@));
        assert(given.take(i as int) =~= given);
        if sorted_by_path(given) {
            lemma_sorted_stays(given, rows_view(rows@));
        }
    }
}

} // verus!
