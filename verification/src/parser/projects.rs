//! The order in which the projects are given does not show in the result.
use vstd::prelude::*;
use crate::parser::ProjectSourceView;
use crate::parser::all_rows;
use crate::parser::data::OutputRowView;
use crate::parser::order::lemma_sort_ignores_interleaving;
use crate::parser::order::sorts_by_path;
use crate::parser::order::with_path;
use crate::parser::project_rows;

verus! {

/// The rows of project `i` that have the given path.
pub open spec fn rows_with_path(
    sources: Seq<ProjectSourceView>,
    i: int,
    target_dep: Seq<char>,
    path: Seq<char>,
) -> Seq<OutputRowView> {
    project_rows(sources[i], target_dep).filter(with_path(path))
}

/// Whether the projects keep their paths apart: no path is the path of rows
/// of two projects. Projects in different directories do.
pub open spec fn paths_apart(sources: Seq<ProjectSourceView>, target_dep: Seq<char>) -> bool {
    forall|i: int, j: int, path: Seq<char>|
        0 <= i < sources.len() && 0 <= j < sources.len() && (#[trigger] rows_with_path(
            sources,
            i,
            target_dep,
            path,
        )).len() > 0 && (#[trigger] rows_with_path(sources, j, target_dep, path)).len() > 0 ==> i == j
}

/// Whether `second` holds the projects of `first` in another order: project
/// `k` of `second` is project `to[k]` of `first`, and project `i` of
/// `first` is project `fro[i]` of `second`; `to` and `fro` undo each other.
pub open spec fn reorders(
    first: Seq<ProjectSourceView>,
    second: Seq<ProjectSourceView>,
    to: Seq<int>,
    fro: Seq<int>,
) -> bool {
    &&& second.len() == first.len()
    &&& to.len() == first.len()
    &&& fro.len() == first.len()
    &&& forall|k: int|
        0 <= k < second.len() ==> 0 <= #[trigger] to[k] < first.len() && second[k] == first[to[k]] && fro[to[k]]
            == k
    &&& forall|i: int| 0 <= i < first.len() ==> 0 <= #[trigger] fro[i] < second.len() && to[fro[i]] == i
}

/// Where no project has a row of a path, no row of all projects has it.
proof fn lemma_path_of_none(sources: Seq<ProjectSourceView>, target_dep: Seq<char>, path: Seq<char>)
    requires
        forall|i: int| 0 <= i < sources.len() ==> (#[trigger] rows_with_path(sources, i, target_dep, path)).len() == 0,
    ensures
        all_rows(sources, target_dep).filter(with_path(path)) == Seq::<OutputRowView>::empty(),
    decreases sources.len(),
{
    reveal(Seq::filter);
    if sources.len() > 0 {
        let rest = sources.drop_last();
        assert forall|i: int| 0 <= i < rest.len() implies (#[trigger] rows_with_path(rest, i, target_dep, path)).len()
            == 0 by {
            assert(rest[i] == sources[i]);
            assert(rows_with_path(sources, i, target_dep, path).len() == 0);
        }
        lemma_path_of_none(rest, target_dep, path);
        assert(rows_with_path(sources, sources.len() - 1, target_dep, path).len() == 0);
        Seq::filter_distributes_over_add(
            all_rows(rest, target_dep),
            project_rows(sources.last(), target_dep),
            with_path(path),
        );
        assert(all_rows(sources, target_dep).filter(with_path(path)) =~= Seq::<OutputRowView>::empty());
    }
}

/// Where one project has the rows of a path, the rows of all projects with
/// that path are its rows with that path.
proof fn lemma_path_of_one(sources: Seq<ProjectSourceView>, owner: int, target_dep: Seq<char>, path: Seq<char>)
    requires
        0 <= owner < sources.len(),
        forall|i: int|
            0 <= i < sources.len() && i != owner ==> (#[trigger] rows_with_path(sources, i, target_dep, path)).len()
                == 0,
    ensures
        all_rows(sources, target_dep).filter(with_path(path)) == rows_with_path(sources, owner, target_dep, path),
    decreases sources.len(),
{
    let rest = sources.drop_last();
    let last = sources.len() - 1;
    Seq::filter_distributes_over_add(
        all_rows(rest, target_dep),
        project_rows(sources.last(), target_dep),
        with_path(path),
    );
    assert forall|i: int| 0 <= i < rest.len() && i != owner implies (#[trigger] rows_with_path(
        rest,
        i,
        target_dep,
        path,
    )).len() == 0 by {
        assert(rest[i] == sources[i]);
        assert(rows_with_path(sources, i, target_dep, path).len() == 0);
    }
    if owner == last {
        lemma_path_of_none(rest, target_dep, path);
        assert(all_rows(sources, target_dep).filter(with_path(path)) =~= rows_with_path(
            sources,
            owner,
            target_dep,
            path,
        ));
    } else {
        lemma_path_of_one(rest, owner, target_dep, path);
        assert(rest[owner] == sources[owner]);
        assert(rows_with_path(sources, last, target_dep, path).len() == 0);
        assert(rows_with_path(sources, last, target_dep, path) =~= Seq::<OutputRowView>::empty());
        assert(all_rows(sources, target_dep).filter(with_path(path)) =~= rows_with_path(
            sources,
            owner,
            target_dep,
            path,
        ));
    }
}

/// Projects that keep their paths apart give, in whatever order they are
/// taken, the same rows for each path, in the same order.
pub proof fn lemma_rows_of_each_path(
    first: Seq<ProjectSourceView>,
    second: Seq<ProjectSourceView>,
    to: Seq<int>,
    fro: Seq<int>,
    target_dep: Seq<char>,
    path: Seq<char>,
)
    requires
        paths_apart(first, target_dep),
        reorders(first, second, to, fro),
    ensures
        all_rows(first, target_dep).filter(with_path(path)) == all_rows(second, target_dep).filter(with_path(path)),
{
    assert forall|k: int| 0 <= k < second.len() implies #[trigger] rows_with_path(second, k, target_dep, path)
        == rows_with_path(first, to[k], target_dep, path) by {}
    if exists|i: int| 0 <= i < first.len() && (#[trigger] rows_with_path(first, i, target_dep, path)).len() > 0 {
        let owner = choose|i: int|
            0 <= i < first.len() && (#[trigger] rows_with_path(first, i, target_dep, path)).len() > 0;
        let seat = fro[owner];
        assert(to[seat] == owner);
        assert forall|i: int| 0 <= i < first.len() && i != owner implies (#[trigger] rows_with_path(
            first,
            i,
            target_dep,
            path,
        )).len() == 0 by {
            if rows_with_path(first, i, target_dep, path).len() > 0 {
                assert(rows_with_path(first, owner, target_dep, path).len() > 0);
            }
        }
        assert forall|k: int| 0 <= k < second.len() && k != seat implies (#[trigger] rows_with_path(
            second,
            k,
            target_dep,
            path,
        )).len() == 0 by {
            assert(rows_with_path(second, k, target_dep, path) == rows_with_path(first, to[k], target_dep, path));
            if to[k] == owner {
                assert(fro[to[k]] == k);
                assert(false);
            }
        }
        lemma_path_of_one(first, owner, target_dep, path);
        lemma_path_of_one(second, seat, target_dep, path);
        assert(rows_with_path(second, seat, target_dep, path) == rows_with_path(first, to[seat], target_dep, path));
    } else {
        assert forall|i: int| 0 <= i < first.len() implies (#[trigger] rows_with_path(
            first,
            i,
            target_dep,
            path,
        )).len() == 0 by {}
        assert forall|k: int| 0 <= k < second.len() implies (#[trigger] rows_with_path(
            second,
            k,
            target_dep,
            path,
        )).len() == 0 by {
            assert(rows_with_path(second, k, target_dep, path) == rows_with_path(first, to[k], target_dep, path));
            assert(rows_with_path(first, to[k], target_dep, path).len() == 0);
        }
        lemma_path_of_none(first, target_dep, path);
        lemma_path_of_none(second, target_dep, path);
    }
}

/// The result does not depend on the order in which the projects are
/// given: projects that keep their paths apart give the same sorted rows in
/// whatever order they are taken.
pub proof fn lemma_order_of_projects(
    first: Seq<ProjectSourceView>,
    second: Seq<ProjectSourceView>,
    to: Seq<int>,
    fro: Seq<int>,
    target_dep: Seq<char>,
    first_result: Seq<OutputRowView>,
    second_result: Seq<OutputRowView>,
)
    requires
        paths_apart(first, target_dep),
        reorders(first, second, to, fro),
        sorts_by_path(all_rows(first, target_dep), first_result),
        sorts_by_path(all_rows(second, target_dep), second_result),
    ensures
        first_result == second_result,
{
    assert forall|path: Seq<char>| #[trigger]
        all_rows(first, target_dep).filter(with_path(path)) == all_rows(second, target_dep).filter(
            with_path(path),
        ) by {
        lemma_rows_of_each_path(first, second, to, fro, target_dep, path);
    }
    lemma_sort_ignores_interleaving(
        all_rows(first, target_dep),
        all_rows(second, target_dep),
        first_result,
        second_result,
    );
}

} // verus!
