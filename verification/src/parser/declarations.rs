//! Where a manifest declares a dependency, and how many rows that gives.
use vstd::prelude::*;
use crate::parser::ProjectSourceView;
use crate::parser::all_rows;
use crate::parser::data::DependencyView;
use crate::parser::data::ManifestView;
use crate::parser::data::OutputRowView;
use crate::parser::data::sentinel;
use crate::parser::declared_row;
use crate::parser::decode::manifest_of_text;
use crate::parser::lock_part;
use crate::parser::manifest_rows;
use crate::parser::manifest_targets;
use crate::parser::manifest_text_rows;
use crate::parser::package_name_of;
use crate::parser::project_rows;
use crate::parser::table_rows;
use crate::parser::tables::TargetView;
use crate::parser::target_rows;
use crate::parser::targets_rows;
use crate::parser::text_targets_listed;
use crate::text::enumerates;
use crate::text::key_order;

verus! {

/// One of the tables of a manifest in which a dependency may be declared.
pub enum Place {
    /// The table `dependencies`.
    Plain,
    /// The table `dev-dependencies`.
    Dev,
    /// The table `dependencies` of the target with the given condition.
    TargetPlain(Seq<char>),
    /// The table `dev-dependencies` of the target with the given condition.
    TargetDev(Seq<char>),
}

/// The table at a place, if the manifest has it.
pub open spec fn table_at(manifest: ManifestView, place: Place) -> Option<Map<Seq<char>, DependencyView>> {
    let targets = manifest_targets(manifest);
    match place {
        Place::Plain => manifest.dependencies,
        Place::Dev => manifest.dev_dependencies,
        Place::TargetPlain(k) => if targets.contains_key(k) {
            targets[k].dependencies
        } else {
            None
        },
        Place::TargetDev(k) => if targets.contains_key(k) {
            targets[k].dev_dependencies
        } else {
            None
        },
    }
}

/// Whether the manifest declares `target_dep` at `place`.
pub open spec fn declares(manifest: ManifestView, place: Place, target_dep: Seq<char>) -> bool {
    table_at(manifest, place) is Some && table_at(manifest, place)->0.contains_key(target_dep)
}

/// The row that a declaration at `place` gives.
pub open spec fn row_at(manifest: ManifestView, place: Place, target_dep: Seq<char>, path: Seq<char>) -> OutputRowView {
    declared_row(table_at(manifest, place)->0[target_dep], path, package_name_of(manifest))
}

/// Targets that give no row give no row together.
proof fn lemma_silent_targets(
    targets: Map<Seq<char>, TargetView>,
    order: Seq<Seq<char>>,
    target_dep: Seq<char>,
    path: Seq<char>,
    name: Seq<char>,
)
    requires
        forall|k: Seq<char>|
            order.contains(k) && targets.contains_key(k) ==> (#[trigger] target_rows(
                targets[k],
                target_dep,
                path,
                name,
            )).len() == 0,
    ensures
        targets_rows(targets, order, target_dep, path, name) =~= Seq::<OutputRowView>::empty(),
    decreases order.len(),
{
    if order.len() > 0 {
        let rest = order.drop_last();
        assert forall|k: Seq<char>| rest.contains(k) && targets.contains_key(k) implies (#[trigger] target_rows(
            targets[k],
            target_dep,
            path,
            name,
        )).len() == 0 by {
            let i = choose|i: int| 0 <= i < rest.len() && rest[i] == k;
            assert(order[i] == k);
        }
        lemma_silent_targets(targets, rest, target_dep, path, name);
        assert(order[order.len() - 1] == order.last());
        assert(order.contains(order.last()));
    }
}

/// The rows of the targets are at least those of any one target that the
/// order names.
proof fn lemma_one_target(
    targets: Map<Seq<char>, TargetView>,
    order: Seq<Seq<char>>,
    k: Seq<char>,
    target_dep: Seq<char>,
    path: Seq<char>,
    name: Seq<char>,
)
    requires
        order.contains(k),
        targets.contains_key(k),
    ensures
        targets_rows(targets, order, target_dep, path, name).len() >= target_rows(
            targets[k],
            target_dep,
            path,
            name,
        ).len(),
    decreases order.len(),
{
    if order.len() > 0 && order.last() != k {
        let rest = order.drop_last();
        let i = choose|i: int| 0 <= i < order.len() && order[i] == k;
        assert(rest[i] == k);
        lemma_one_target(targets, rest, k, target_dep, path, name);
    }
}

/// The rows of the targets are at least those of any two different targets
/// that the order names.
proof fn lemma_two_targets(
    targets: Map<Seq<char>, TargetView>,
    order: Seq<Seq<char>>,
    k1: Seq<char>,
    k2: Seq<char>,
    target_dep: Seq<char>,
    path: Seq<char>,
    name: Seq<char>,
)
    requires
        order.contains(k1),
        order.contains(k2),
        k1 != k2,
        targets.contains_key(k1),
        targets.contains_key(k2),
    ensures
        targets_rows(targets, order, target_dep, path, name).len() >= target_rows(
            targets[k1],
            target_dep,
            path,
            name,
        ).len() + target_rows(targets[k2], target_dep, path, name).len(),
    decreases order.len(),
{
    if order.len() > 0 {
        let rest = order.drop_last();
        let i1 = choose|i: int| 0 <= i < order.len() && order[i] == k1;
        let i2 = choose|i: int| 0 <= i < order.len() && order[i] == k2;
        if order.last() == k1 {
            assert(rest[i2] == k2);
            lemma_one_target(targets, rest, k2, target_dep, path, name);
        } else if order.last() == k2 {
            assert(rest[i1] == k1);
            lemma_one_target(targets, rest, k1, target_dep, path, name);
        } else {
            assert(rest[i1] == k1);
            assert(rest[i2] == k2);
            lemma_two_targets(targets, rest, k1, k2, target_dep, path, name);
        }
    }
}

/// Where one target alone gives rows, the rows of the targets are its rows.
proof fn lemma_only_target(
    targets: Map<Seq<char>, TargetView>,
    order: Seq<Seq<char>>,
    k: Seq<char>,
    target_dep: Seq<char>,
    path: Seq<char>,
    name: Seq<char>,
)
    requires
        order.no_duplicates(),
        order.contains(k),
        targets.contains_key(k),
        forall|o: Seq<char>|
            o != k && order.contains(o) && targets.contains_key(o) ==> (#[trigger] target_rows(
                targets[o],
                target_dep,
                path,
                name,
            )).len() == 0,
    ensures
        targets_rows(targets, order, target_dep, path, name) =~= target_rows(targets[k], target_dep, path, name),
    decreases order.len(),
{
    if order.len() > 0 {
        let rest = order.drop_last();
        let last = order.last();
        assert(order[order.len() - 1] == last);
        assert forall|o: Seq<char>| rest.contains(o) implies order.contains(o) && o != last by {
            let i = choose|i: int| 0 <= i < rest.len() && rest[i] == o;
            assert(order[i] == o);
        }
        if last == k {
            lemma_silent_targets(targets, rest, target_dep, path, name);
        } else {
            let i = choose|i: int| 0 <= i < order.len() && order[i] == k;
            assert(rest[i] == k);
            assert(rest.no_duplicates());
            lemma_only_target(targets, rest, k, target_dep, path, name);
            assert(order.contains(last));
        }
    }
}

/// A dependency that a manifest declares at one place and nowhere else
/// gives one row, with the version declared there.
pub proof fn lemma_single_declaration(
    manifest: ManifestView,
    order: Seq<Seq<char>>,
    place: Place,
    target_dep: Seq<char>,
    path: Seq<char>,
)
    requires
        enumerates(order, manifest_targets(manifest)),
        declares(manifest, place, target_dep),
        forall|other: Place| #[trigger] declares(manifest, other, target_dep) ==> other == place,
    ensures
        manifest_rows(manifest, order, target_dep, path) == seq![row_at(manifest, place, target_dep, path)],
{
    let targets = manifest_targets(manifest);
    let name = package_name_of(manifest);
    let rows = manifest_rows(manifest, order, target_dep, path);
    let plain = table_rows(manifest.dependencies, target_dep, path, name);
    let dev = table_rows(manifest.dev_dependencies, target_dep, path, name);
    let rest = targets_rows(targets, order, target_dep, path, name);
    match place {
        Place::Plain => {
            assert(!declares(manifest, Place::Dev, target_dep));
            assert forall|k: Seq<char>| order.contains(k) && targets.contains_key(k) implies (#[trigger] target_rows(
                targets[k],
                target_dep,
                path,
                name,
            )).len() == 0 by {
                assert(!declares(manifest, Place::TargetPlain(k), target_dep));
                assert(!declares(manifest, Place::TargetDev(k), target_dep));
            }
            lemma_silent_targets(targets, order, target_dep, path, name);
            assert(rows =~= seq![row_at(manifest, place, target_dep, path)]);
        },
        Place::Dev => {
            assert(!declares(manifest, Place::Plain, target_dep));
            assert forall|k: Seq<char>| order.contains(k) && targets.contains_key(k) implies (#[trigger] target_rows(
                targets[k],
                target_dep,
                path,
                name,
            )).len() == 0 by {
                assert(!declares(manifest, Place::TargetPlain(k), target_dep));
                assert(!declares(manifest, Place::TargetDev(k), target_dep));
            }
            lemma_silent_targets(targets, order, target_dep, path, name);
            assert(rows =~= seq![row_at(manifest, place, target_dep, path)]);
        },
        Place::TargetPlain(k) => {
            assert(!declares(manifest, Place::Plain, target_dep));
            assert(!declares(manifest, Place::Dev, target_dep));
            assert(!declares(manifest, Place::TargetDev(k), target_dep));
            assert(order.contains(k));
            assert forall|o: Seq<char>| o != k && order.contains(o) && targets.contains_key(o) implies (
            #[trigger] target_rows(targets[o], target_dep, path, name)).len() == 0 by {
                assert(!declares(manifest, Place::TargetPlain(o), target_dep));
                assert(!declares(manifest, Place::TargetDev(o), target_dep));
            }
            lemma_only_target(targets, order, k, target_dep, path, name);
            assert(rows =~= seq![row_at(manifest, place, target_dep, path)]);
        },
        Place::TargetDev(k) => {
            assert(!declares(manifest, Place::Plain, target_dep));
            assert(!declares(manifest, Place::Dev, target_dep));
            assert(!declares(manifest, Place::TargetPlain(k), target_dep));
            assert(order.contains(k));
            assert forall|o: Seq<char>| o != k && order.contains(o) && targets.contains_key(o) implies (
            #[trigger] target_rows(targets[o], target_dep, path, name)).len() == 0 by {
                assert(!declares(manifest, Place::TargetPlain(o), target_dep));
                assert(!declares(manifest, Place::TargetDev(o), target_dep));
            }
            lemma_only_target(targets, order, k, target_dep, path, name);
            assert(rows =~= seq![row_at(manifest, place, target_dep, path)]);
        },
    }
}

/// The condition of the target that a place belongs to, if it is a place
/// of a target.
pub open spec fn condition_of(place: Place) -> Option<Seq<char>> {
    match place {
        Place::Plain => None,
        Place::Dev => None,
        Place::TargetPlain(k) => Some(k),
        Place::TargetDev(k) => Some(k),
    }
}

/// A dependency that a manifest declares at two different places gives a
/// row for each: two rows at least.
pub proof fn lemma_two_declarations(
    manifest: ManifestView,
    order: Seq<Seq<char>>,
    first: Place,
    second: Place,
    target_dep: Seq<char>,
    path: Seq<char>,
)
    requires
        enumerates(order, manifest_targets(manifest)),
        declares(manifest, first, target_dep),
        declares(manifest, second, target_dep),
        first != second,
    ensures
        manifest_rows(manifest, order, target_dep, path).len() >= 2,
{
    let targets = manifest_targets(manifest);
    let name = package_name_of(manifest);
    match (condition_of(first), condition_of(second)) {
        (None, None) => {},
        (Some(k), None) => {
            assert(order.contains(k));
            lemma_one_target(targets, order, k, target_dep, path, name);
        },
        (None, Some(k)) => {
            assert(order.contains(k));
            lemma_one_target(targets, order, k, target_dep, path, name);
        },
        (Some(k1), Some(k2)) => {
            assert(order.contains(k1));
            assert(order.contains(k2));
            if k1 == k2 {
                lemma_one_target(targets, order, k1, target_dep, path, name);
            } else {
                lemma_two_targets(targets, order, k1, k2, target_dep, path, name);
            }
        },
    }
}

/// A manifest text that does not parse gives no row of its own: the rows of
/// its project are those of its lock file, under the sentinel name.
pub proof fn lemma_unreadable_manifest(source: ProjectSourceView, target_dep: Seq<char>)
    requires
        source.manifest is Some,
        manifest_of_text(source.manifest->0.text) is None,
    ensures
        manifest_text_rows(source.manifest->0.text, target_dep, source.manifest->0.path).len() == 0,
        project_rows(source, target_dep) == lock_part(source.lock, target_dep, sentinel()),
{
    assert(project_rows(source, target_dep) =~= lock_part(source.lock, target_dep, sentinel()));
}

/// A manifest text that declares a dependency at one place and nowhere
/// else gives one row, with the version declared there.
pub proof fn lemma_single_declaration_in_text(text: Seq<char>, place: Place, target_dep: Seq<char>, path: Seq<char>)
    requires
        manifest_of_text(text) is Some,
        text_targets_listed(text),
        declares(manifest_of_text(text)->0, place, target_dep),
        forall|other: Place| #[trigger] declares(manifest_of_text(text)->0, other, target_dep) ==> other == place,
    ensures
        manifest_text_rows(text, target_dep, path) == seq![row_at(manifest_of_text(text)->0, place, target_dep, path)],
{
    let manifest = manifest_of_text(text)->0;
    lemma_single_declaration(manifest, key_order(manifest_targets(manifest)), place, target_dep, path);
}

/// A manifest text that declares a dependency at two different places gives
/// a row for each: two rows at least.
pub proof fn lemma_two_declarations_in_text(
    text: Seq<char>,
    first: Place,
    second: Place,
    target_dep: Seq<char>,
    path: Seq<char>,
)
    requires
        manifest_of_text(text) is Some,
        text_targets_listed(text),
        declares(manifest_of_text(text)->0, first, target_dep),
        declares(manifest_of_text(text)->0, second, target_dep),
        first != second,
    ensures
        manifest_text_rows(text, target_dep, path).len() >= 2,
{
    let manifest = manifest_of_text(text)->0;
    lemma_two_declarations(manifest, key_order(manifest_targets(manifest)), first, second, target_dep, path);
}

/// The rows of a project do not depend on the projects beside it: the rows
/// of all projects are the rows of each, one after the other.
pub proof fn lemma_projects_side_by_side(
    sources: Seq<ProjectSourceView>,
    source: ProjectSourceView,
    target_dep: Seq<char>,
)
    ensures
        all_rows(sources.push(source), target_dep) == all_rows(sources, target_dep) + project_rows(
            source,
            target_dep,
        ),
{
    assert(sources.push(source).drop_last() =~= sources);
}

/// The place itself where the manifest declares `target_dep` there, else
/// nothing.
pub open spec fn place_if(manifest: ManifestView, place: Place, target_dep: Seq<char>) -> Seq<Place> {
    if declares(manifest, place, target_dep) {
        seq![place]
    } else {
        Seq::empty()
    }
}

/// The places of the targets at which the manifest declares `target_dep`:
/// target by target in the given order, the plain table of each before its
/// dev table.
pub open spec fn target_places(manifest: ManifestView, order: Seq<Seq<char>>, target_dep: Seq<char>) -> Seq<Place>
    decreases order.len(),
{
    if order.len() == 0 {
        Seq::empty()
    } else {
        target_places(manifest, order.drop_last(), target_dep) + (place_if(
            manifest,
            Place::TargetPlain(order.last()),
            target_dep,
        ) + place_if(manifest, Place::TargetDev(order.last()), target_dep))
    }
}

/// The places at which the manifest declares `target_dep`: the plain table,
/// the dev table, then the tables of the targets.
pub open spec fn declaring_places(manifest: ManifestView, order: Seq<Seq<char>>, target_dep: Seq<char>) -> Seq<
    Place,
> {
    (place_if(manifest, Place::Plain, target_dep) + place_if(manifest, Place::Dev, target_dep)) + target_places(
        manifest,
        order,
        target_dep,
    )
}

/// The rows that the places give, place by place.
pub open spec fn rows_at(
    manifest: ManifestView,
    places: Seq<Place>,
    target_dep: Seq<char>,
    path: Seq<char>,
) -> Seq<OutputRowView> {
    places.map_values(|place: Place| row_at(manifest, place, target_dep, path))
}

proof fn lemma_place_rows(manifest: ManifestView, place: Place, target_dep: Seq<char>, path: Seq<char>)
    ensures
        rows_at(manifest, place_if(manifest, place, target_dep), target_dep, path) == table_rows(
            table_at(manifest, place),
            target_dep,
            path,
            package_name_of(manifest),
        ),
{
    assert(rows_at(manifest, place_if(manifest, place, target_dep), target_dep, path) =~= table_rows(
        table_at(manifest, place),
        target_dep,
        path,
        package_name_of(manifest),
    ));
}

proof fn lemma_target_place_rows(
    manifest: ManifestView,
    order: Seq<Seq<char>>,
    target_dep: Seq<char>,
    path: Seq<char>,
)
    ensures
        rows_at(manifest, target_places(manifest, order, target_dep), target_dep, path) == targets_rows(
            manifest_targets(manifest),
            order,
            target_dep,
            path,
            package_name_of(manifest),
        ),
    decreases order.len(),
{
    let targets = manifest_targets(manifest);
    let name = package_name_of(manifest);
    if order.len() == 0 {
        assert(rows_at(manifest, target_places(manifest, order, target_dep), target_dep, path) =~= Seq::<
            OutputRowView,
        >::empty());
    } else {
        let k = order.last();
        let rest = target_places(manifest, order.drop_last(), target_dep);
        let plain = place_if(manifest, Place::TargetPlain(k), target_dep);
        let dev = place_if(manifest, Place::TargetDev(k), target_dep);
        lemma_target_place_rows(manifest, order.drop_last(), target_dep, path);
        lemma_place_rows(manifest, Place::TargetPlain(k), target_dep, path);
        lemma_place_rows(manifest, Place::TargetDev(k), target_dep, path);
        assert(rows_at(manifest, rest + (plain + dev), target_dep, path) =~= rows_at(
            manifest,
            rest,
            target_dep,
            path,
        ) + (rows_at(manifest, plain, target_dep, path) + rows_at(manifest, dev, target_dep, path)));
        if targets.contains_key(k) {
            assert(target_rows(targets[k], target_dep, path, name) =~= rows_at(manifest, plain, target_dep, path)
                + rows_at(manifest, dev, target_dep, path));
        } else {
            assert(rows_at(manifest, plain, target_dep, path) + rows_at(manifest, dev, target_dep, path) =~= Seq::<
                OutputRowView,
            >::empty());
        }
    }
}

proof fn lemma_target_places(manifest: ManifestView, order: Seq<Seq<char>>, target_dep: Seq<char>)
    requires
        order.no_duplicates(),
    ensures
        target_places(manifest, order, target_dep).no_duplicates(),
        forall|place: Place| #[trigger]
            target_places(manifest, order, target_dep).contains(place) <==> (condition_of(place) is Some
                && order.contains(condition_of(place)->0) && declares(manifest, place, target_dep)),
    decreases order.len(),
{
    let places = target_places(manifest, order, target_dep);
    if order.len() > 0 {
        let k = order.last();
        let before = order.drop_last();
        let rest = target_places(manifest, before, target_dep);
        let plain = place_if(manifest, Place::TargetPlain(k), target_dep);
        let dev = place_if(manifest, Place::TargetDev(k), target_dep);
        let both = plain + dev;
        assert(order[order.len() - 1] == k);
        lemma_target_places(manifest, before, target_dep);
        assert forall|c: Seq<char>| #[trigger] order.contains(c) <==> (before.contains(c) || c == k) by {
            if order.contains(c) {
                let i = choose|i: int| 0 <= i < order.len() && order[i] == c;
                if i < before.len() {
                    assert(before[i] == c);
                }
            }
            if before.contains(c) {
                let i = choose|i: int| 0 <= i < before.len() && before[i] == c;
                assert(order[i] == c);
            }
        }
        assert(!before.contains(k)) by {
            if before.contains(k) {
                let i = choose|i: int| 0 <= i < before.len() && before[i] == k;
                assert(order[i] == order[order.len() - 1]);
            }
        }
        assert forall|place: Place| #[trigger] both.contains(place) <==> ((place == Place::TargetPlain(k) || place
            == Place::TargetDev(k)) && declares(manifest, place, target_dep)) by {
            vstd::seq_lib::lemma_seq_concat_contains_all_elements(plain, dev, place);
            if plain.len() > 0 {
                assert(plain[0] == Place::TargetPlain(k));
            }
            if dev.len() > 0 {
                assert(dev[0] == Place::TargetDev(k));
            }
        }
        assert(both.no_duplicates());
        assert forall|place: Place| #[trigger] places.contains(place) <==> (condition_of(place) is Some
            && order.contains(condition_of(place)->0) && declares(manifest, place, target_dep)) by {
            vstd::seq_lib::lemma_seq_concat_contains_all_elements(rest, both, place);
        }
        assert forall|i: int, j: int| 0 <= i < rest.len() && 0 <= j < both.len() implies rest[i] != both[j] by {
            assert(rest.contains(rest[i]));
            assert(both.contains(both[j]));
        }
        vstd::seq_lib::lemma_no_dup_in_concat(rest, both);
    }
}

/// The rows of a manifest are the rows of the places at which it declares
/// the dependency: each such place gives one row, with the version declared
/// there; no other row is given; and the rows come in the order of the
/// places, the plain table first, the dev table next, the targets after
/// them.
pub proof fn lemma_rows_of_declarations(
    manifest: ManifestView,
    order: Seq<Seq<char>>,
    target_dep: Seq<char>,
    path: Seq<char>,
)
    requires
        enumerates(order, manifest_targets(manifest)),
    ensures
        manifest_rows(manifest, order, target_dep, path) == rows_at(
            manifest,
            declaring_places(manifest, order, target_dep),
            target_dep,
            path,
        ),
        declaring_places(manifest, order, target_dep).no_duplicates(),
        forall|place: Place| #[trigger]
            declaring_places(manifest, order, target_dep).contains(place) <==> declares(
                manifest,
                place,
                target_dep,
            ),
        manifest_rows(manifest, order, target_dep, path).len() == declaring_places(
            manifest,
            order,
            target_dep,
        ).len(),
{
    let plain = place_if(manifest, Place::Plain, target_dep);
    let dev = place_if(manifest, Place::Dev, target_dep);
    let top = plain + dev;
    let rest = target_places(manifest, order, target_dep);
    let places = declaring_places(manifest, order, target_dep);
    lemma_place_rows(manifest, Place::Plain, target_dep, path);
    lemma_place_rows(manifest, Place::Dev, target_dep, path);
    lemma_target_place_rows(manifest, order, target_dep, path);
    lemma_target_places(manifest, order, target_dep);
    assert(rows_at(manifest, places, target_dep, path) =~= (rows_at(manifest, plain, target_dep, path) + rows_at(
        manifest,
        dev,
        target_dep,
        path,
    )) + rows_at(manifest, rest, target_dep, path));
    assert forall|place: Place| #[trigger] top.contains(place) <==> ((place == Place::Plain || place == Place::Dev)
        && declares(manifest, place, target_dep)) by {
        vstd::seq_lib::lemma_seq_concat_contains_all_elements(plain, dev, place);
        if plain.len() > 0 {
            assert(plain[0] == Place::Plain);
        }
        if dev.len() > 0 {
            assert(dev[0] == Place::Dev);
        }
    }
    assert(top.no_duplicates());
    assert forall|place: Place| #[trigger] places.contains(place) <==> declares(manifest, place, target_dep) by {
        vstd::seq_lib::lemma_seq_concat_contains_all_elements(top, rest, place);
        match place {
            Place::TargetPlain(k) => {
                if declares(manifest, place, target_dep) {
                    assert(order.contains(k));
                }
            },
            Place::TargetDev(k) => {
                if declares(manifest, place, target_dep) {
                    assert(order.contains(k));
                }
            },
            _ => {},
        }
    }
    assert forall|i: int, j: int| 0 <= i < top.len() && 0 <= j < rest.len() implies top[i] != rest[j] by {
        assert(top.contains(top[i]));
        assert(rest.contains(rest[j]));
    }
    vstd::seq_lib::lemma_no_dup_in_concat(top, rest);
}

/// The rows of a manifest text are the rows of the places at which its
/// manifest declares the dependency, in the order of the places.
pub proof fn lemma_rows_of_declarations_in_text(text: Seq<char>, target_dep: Seq<char>, path: Seq<char>)
    requires
        manifest_of_text(text) is Some,
        text_targets_listed(text),
    ensures
        manifest_text_rows(text, target_dep, path) == rows_at(
            manifest_of_text(text)->0,
            declaring_places(
                manifest_of_text(text)->0,
                key_order(manifest_targets(manifest_of_text(text)->0)),
                target_dep,
            ),
            target_dep,
            path,
        ),
        declaring_places(
            manifest_of_text(text)->0,
            key_order(manifest_targets(manifest_of_text(text)->0)),
            target_dep,
        ).no_duplicates(),
        forall|place: Place| #[trigger]
            declaring_places(
                manifest_of_text(text)->0,
                key_order(manifest_targets(manifest_of_text(text)->0)),
                target_dep,
            ).contains(place) <==> declares(manifest_of_text(text)->0, place, target_dep),
{
    let manifest = manifest_of_text(text)->0;
    lemma_rows_of_declarations(manifest, key_order(manifest_targets(manifest)), target_dep, path);
}

} // verus!
