//! Where things are looked for and how they are named: modules, files, words.
use vstd::prelude::*;

use crate::annotations;
use crate::callables;
use crate::errors::FaultView;
use crate::following;
use crate::index;
use crate::index::IndexView;
use crate::index::Lookup;
use crate::model::BaseView;
use crate::model::CallView;
use crate::model::ClassView;
use crate::model::FunctionView;
use crate::model::ModuleView;
use crate::paths;
use crate::relations;
use crate::resolve;
use crate::sorting;
use crate::text;
use crate::text::Text;
use crate::typeshed;
use crate::workspace;

verus! {

/// A module of the workspace is found before one of that name from outside, and a module at hand
/// before the note that there is none. What was neither found nor noted as absent is unknown.
pub proof fn law_modules_at_hand_are_found(idx: IndexView, name: Text)
    ensures
        idx.workspace.contains_key(name) ==> idx.lookup(name) == (Lookup::Known {
            module: idx.workspace[name],
            external: false,
        }),
        !idx.workspace.contains_key(name) && idx.lazy.contains_key(name) ==> idx.lookup(name) == (Lookup::Known {
            module: idx.lazy[name],
            external: false,
        }),
        idx.lookup(name) matches Lookup::Known { module, external: true } ==> idx.external.contains_key(name) && module
            == idx.external[name] && !idx.workspace.contains_key(name) && !idx.lazy.contains_key(name),
        idx.external.contains_key(name) ==> idx.lookup(name) is Known,
        idx.lookup(name) is Absent <==> idx.absent.contains(name) && !idx.workspace.contains_key(name)
            && !idx.lazy.contains_key(name) && !idx.external.contains_key(name),
        idx.lookup(name) is Unknown <==> !idx.absent.contains(name) && !idx.workspace.contains_key(name)
            && !idx.lazy.contains_key(name) && !idx.external.contains_key(name),
{
}

/// A module that was looked for and found is at hand from then on, as one of the workspace where it
/// was found there; one that was not found is known to be absent. No other module is touched.
pub proof fn law_supplied_modules_are_at_hand(idx: IndexView, name: Text, inside: Option<ModuleView>, outside: Option<ModuleView>, other: Text)
    requires
        idx.lookup(name) is Unknown,
    ensures
        ({
            let after = workspace::supplied(idx, name, inside, outside);
            &&& inside matches Some(module) ==> after.lookup(name) == (Lookup::Known { module, external: false })
                && (!idx.by_path.contains_key(paths::plain(module.path)) ==> after.module_name_for_file(module.path)
                == Some(name))
            &&& inside is None && outside is Some ==> after.lookup(name) == (Lookup::Known {
                module: outside->0,
                external: true,
            })
            &&& inside is None && outside is None ==> after.lookup(name) is Absent
            &&& other != name ==> after.lookup(other) == idx.lookup(other)
        }),
{
}

proof fn lemma_first_name(roots: Seq<Text>, file: Text, i: int)
    requires
        0 <= i < roots.len(),
        paths::module_name_at(roots[i], file) is Ok,
        forall|k: int| 0 <= k < i ==> paths::module_name_at(#[trigger] roots[k], file) is Err,
    ensures
        index::first_name(roots, file) == Some(paths::module_name_at(roots[i], file)->Ok_0),
    decreases i,
{
    if i > 0 {
        let rest = roots.drop_first();
        assert(paths::module_name_at(roots[0], file) is Err);
        assert forall|k: int| 0 <= k < i - 1 implies paths::module_name_at(#[trigger] rest[k], file) is Err by {
            assert(rest[k] == roots[k + 1]);
        }
        lemma_first_name(rest, file, i - 1);
    }
}

/// A file that was read has the name of the module that was read from it. Any other file is named by
/// where it lies below the first import root above it, or else below the workspace.
pub proof fn law_files_are_named_by_the_first_root(idx: IndexView, file: Text, i: int)
    ensures
        ({
            let form = paths::plain(file);
            &&& idx.by_path.contains_key(form) && idx.workspace.contains_key(idx.by_path[form])
                ==> idx.module_name_for_file(file) == Some(idx.workspace[idx.by_path[form]].module_name)
            &&& !idx.by_path.contains_key(form) && idx.lazy_paths.contains_key(form) ==> idx.module_name_for_file(file)
                == Some(idx.lazy_paths[form])
            &&& !idx.by_path.contains_key(form) && !idx.lazy_paths.contains_key(form) && 0 <= i < idx.import_roots.len()
                && paths::module_name_at(idx.import_roots[i], file) is Ok && (forall|k: int|
                0 <= k < i ==> paths::module_name_at(#[trigger] idx.import_roots[k], file) is Err)
                ==> idx.module_name_for_file(file) == Some(paths::module_name_at(idx.import_roots[i], file)->Ok_0)
        }),
{
    if 0 <= i < idx.import_roots.len() && paths::module_name_at(idx.import_roots[i], file) is Ok && (forall|k: int|
        0 <= k < i ==> paths::module_name_at(#[trigger] idx.import_roots[k], file) is Err) {
        lemma_first_name(idx.import_roots, file, i);
    }
}

/// A module is looked for below a root in a stub file first, then in a source file, then as a package
/// with a stub, then as a package with a source.
pub proof fn law_stubs_come_before_sources(root: Text, dirs: Seq<Text>, leaf: Text)
    requires
        following::are_names(dirs),
        following::is_name(leaf),
    ensures
        paths::module_paths(root, following::dotted(dirs.push(leaf))) == seq![
            paths::path_below(root, dirs.push(leaf + ".pyi"@)),
            paths::path_below(root, dirs.push(leaf + ".py"@)),
            paths::path_below(root, dirs.push(leaf).push("__init__.pyi"@)),
            paths::path_below(root, dirs.push(leaf).push("__init__.py"@)),
        ],
{
    let parts = dirs.push(leaf);
    assert forall|i: int| 0 <= i < parts.len() implies following::is_name(#[trigger] parts[i]) by {
        if i < dirs.len() {
            assert(parts[i] == dirs[i]);
        }
    }
    following::lemma_dotted(parts);
    assert(parts.drop_last() =~= dirs);
    assert(paths::module_paths(root, following::dotted(parts)) =~= seq![
        paths::path_below(root, dirs.push(leaf + ".pyi"@)),
        paths::path_below(root, dirs.push(leaf + ".py"@)),
        paths::path_below(root, dirs.push(leaf).push("__init__.pyi"@)),
        paths::path_below(root, dirs.push(leaf).push("__init__.py"@)),
    ]);
}

/// Outside the workspace a module is looked for below one import root after the other, in their order.
pub proof fn law_roots_are_searched_in_order(roots: Seq<Text>, name: Text, i: int, k: int)
    ensures
        workspace::external_paths(roots, name).len() == 4 * roots.len(),
        0 <= i < roots.len() && 0 <= k < 4 ==> workspace::external_paths(roots, name)[4 * i + k]
            == paths::module_paths(roots[i], name)[k],
    decreases roots.len(),
{
    if roots.len() > 0 {
        let front = roots.drop_last();
        law_roots_are_searched_in_order(front, name, i, k);
        assert(paths::module_paths(roots.last(), name).len() == 4);
        if 0 <= i < front.len() && 0 <= k < 4 {
            assert(front[i] == roots[i]);
            assert(4 * i + k < 4 * front.len());
        }
    }
}

/// A package's own module is its own package; any other module belongs to the package that its name
/// starts with.
pub proof fn law_modules_belong_to_packages(path: Text, package: Text, name: Text)
    requires
        following::is_name(name),
    ensures
        ({
            let parts = paths::segments(path);
            let own = parts.len() > 0 && (parts.last() == "__init__.py"@ || parts.last() == "__init__.pyi"@);
            let module = package + seq!['.'] + name;
            &&& own ==> paths::package_of(path, module) == module
            &&& !own ==> paths::package_of(path, module) == package
            &&& !own ==> paths::package_of(path, name).len() == 0
        }),
{
    following::lemma_split_behind(package, name);
    text::lemma_last_position(name, '.');
    if text::last_position(name, '.') >= 0 {
        assert(name[text::last_position(name, '.')] == '.');
    }
}

/// A file is a Python source by what stands behind the last dot of its name, where something stands
/// before it.
pub proof fn law_sources_are_told_by_their_endings(start: Text, ending: Text)
    requires
        !ending.contains('.'),
    ensures
        paths::is_source(start + seq!['.'] + ending) <==> start.len() > 0 && (ending == "py"@ || ending == "pyi"@),
        !paths::is_source(ending),
{
    let s = start + seq!['.'] + ending;
    text::lemma_last_position(s, '.');
    assert(s[start.len() as int] == '.');
    assert forall|i: int| start.len() < i < s.len() implies s[i] != '.' by {
        assert(ending.contains(ending[i - start.len() - 1]));
    }
    assert(text::last_position(s, '.') == start.len());
    assert(s.subrange(0, start.len() as int) =~= start);
    assert(s.subrange(start.len() as int + 1, s.len() as int) =~= ending);
    text::lemma_last_position(ending, '.');
    if text::last_position(ending, '.') >= 0 {
        assert(ending.contains(ending[text::last_position(ending, '.')]));
    }
}

/// Whether all characters are white space.
pub open spec fn is_all_white(s: Text) -> bool {
    forall|i: int| 0 <= i < s.len() ==> text::is_white(#[trigger] s[i])
}

proof fn lemma_trimmed_end(s: Text) -> (tail: Text)
    ensures
        s == text::trimmed_end(s) + tail,
        is_all_white(tail),
        text::trimmed_end(s).len() > 0 ==> !text::is_white(text::trimmed_end(s).last()),
    decreases s.len(),
{
    if s.len() > 0 && text::is_white(s.last()) {
        let tail = lemma_trimmed_end(s.drop_last());
        assert(s =~= s.drop_last().push(s.last()));
        assert(text::trimmed_end(s) == text::trimmed_end(s.drop_last()));
        assert(text::trimmed_end(s) + tail.push(s.last()) =~= (text::trimmed_end(s) + tail).push(s.last()));
        tail.push(s.last())
    } else {
        assert(s =~= s + Seq::<char>::empty());
        Seq::empty()
    }
}

proof fn lemma_trimmed_start(s: Text) -> (head: Text)
    ensures
        s == head + text::trimmed_start(s),
        is_all_white(head),
        text::trimmed_start(s).len() > 0 ==> !text::is_white(text::trimmed_start(s).first()),
    decreases s.len(),
{
    if s.len() > 0 && text::is_white(s.first()) {
        let rest = lemma_trimmed_start(s.drop_first());
        let head = seq![s[0]] + rest;
        assert(s =~= seq![s[0]] + s.drop_first());
        assert(text::trimmed_start(s) == text::trimmed_start(s.drop_first()));
        assert(head + text::trimmed_start(s) =~= seq![s[0]] + (rest + text::trimmed_start(s)));
        assert forall|i: int| 0 <= i < head.len() implies text::is_white(#[trigger] head[i]) by {
            if i > 0 {
                assert(head[i] == rest[i - 1]);
            }
        }
        head
    } else {
        assert(s =~= Seq::<char>::empty() + s);
        Seq::empty()
    }
}

/// Trimming a text takes away the white space at its ends and nothing else.
pub proof fn law_trimming_takes_white_space(s: Text) -> (ends: (Text, Text))
    ensures
        s == ends.0 + text::trimmed(s) + ends.1,
        is_all_white(ends.0),
        is_all_white(ends.1),
        text::trimmed(s).len() > 0 ==> !text::is_white(text::trimmed(s).first()) && !text::is_white(text::trimmed(s).last()),
{
    let head = lemma_trimmed_start(s);
    let middle = text::trimmed_start(s);
    let tail = lemma_trimmed_end(middle);
    assert(s =~= head + text::trimmed(s) + tail);
    if text::trimmed(s).len() > 0 {
        assert(text::trimmed(s)[0] == middle[0]);
    }
    (head, tail)
}

/// The parts that hold something are kept, in their order: as many as there are, and each of them.
pub proof fn law_filled_parts_are_kept(parts: Seq<Text>)
    ensures
        forall|p: Text| p.len() > 0 ==> (#[trigger] text::filled(parts).contains(p) <==> parts.contains(p)),
        text::filled(parts) == parts.filter(|p: Text| p.len() > 0),
    decreases parts.len(),
{
    reveal(Seq::filter);
    if parts.len() > 0 {
        let front = parts.drop_last();
        law_filled_parts_are_kept(front);
        assert(front.push(parts.last()) =~= parts);
        assert forall|p: Text| p.len() > 0 implies (#[trigger] text::filled(parts).contains(p) <==> parts.contains(p)) by {
            vstd::seq_lib::lemma_seq_contains_after_push(front, parts.last(), p);
            vstd::seq_lib::lemma_seq_contains_after_push(text::filled(front), parts.last(), p);
        }
    }
}

/// A text with its words one blank apart has the same words as before, in the same order.
pub proof fn law_words_are_kept(s: Text)
    ensures
        text::filled(text::split(annotations::one_blank_apart(s), None)) == text::filled(text::split(s, None)),
{
    let parts = text::split(s, None);
    let words = text::filled(parts);
    text::law_split_parts_are_unbroken(s, None);
    text::lemma_filled(parts);
    if words.len() == 0 {
        reveal_with_fuel(text::filled, 2);
        assert(annotations::one_blank_apart(s) =~= Seq::<char>::empty());
        assert(text::filled(text::split(Seq::empty(), None)) =~= Seq::<Text>::empty());
    } else {
        assert forall|i: int, k: int| 0 <= i < words.len() && 0 <= k < words[i].len() implies !text::breaks(
            #[trigger] words[i][k],
            None,
        ) by {
            let m = choose|m: int| 0 <= m < parts.len() && parts[m] == words[i];
            assert(!text::breaks(parts[m][k], None));
        }
        text::law_split_undoes_join(words, ' ', None);
        text::lemma_filled(words);
    }
}

/// Of the snapshots there are, none is lost, and each comes before those that were changed earlier.
pub proof fn law_newest_snapshots_come_first(candidates: Seq<(u64, Text)>) -> (order: Seq<(u64, Text)>)
    ensures
        order.to_multiset() == candidates.to_multiset(),
        forall|i: int, j: int| 0 <= i <= j < order.len() ==> (#[trigger] order[i]).0 >= (#[trigger] order[j]).0,
        typeshed::newest_roots(candidates).len() == order.len(),
        forall|i: int| 0 <= i < order.len() ==> #[trigger] typeshed::newest_roots(candidates)[i] == order[i].1,
{
    let key = |snapshot: (u64, Text)| typeshed::age_key(snapshot);
    let order = sorting::sorted(candidates, key);
    sorting::law_sorted_is_an_ordered_rearrangement(candidates, key);
    assert forall|i: int, j: int| 0 <= i <= j < order.len() implies (#[trigger] order[i]).0 >= (#[trigger] order[j]).0 by {
        assert(sorting::key_le(key(order[i]), key(order[j])));
        reveal_with_fuel(sorting::key_le, 2);
    }
    order
}

/// An entry of an archive goes to where it lies below the archive's own directory, where that is in the
/// standard library; all other entries are skipped.
pub proof fn law_only_the_standard_library_is_unpacked(top: Text, rest: Seq<Text>)
    ensures
        rest.len() > 0 && rest[0] == "stdlib"@ ==> typeshed::entry_target(seq![top] + rest) == Some(rest),
        rest.len() == 0 || rest[0] != "stdlib"@ ==> typeshed::entry_target(seq![top] + rest) is None,
        typeshed::entry_target(Seq::empty()) is None,
{
    assert((seq![top] + rest).drop_first() =~= rest);
}

/// Whether a base of one of these classes cannot be followed, for a reason.
pub open spec fn base_is_stuck(idx: IndexView, info: ModuleView, classes: Seq<ClassView>, fault: FaultView) -> bool {
    exists|k: int, b: int|
        0 <= k < classes.len() && 0 <= b < classes[k].bases.len() && resolve::base_in(
            idx,
            info,
            #[trigger] classes[k].bases[b],
        ) == Err::<BaseView, FaultView>(fault)
}

proof fn lemma_base_faults(idx: IndexView, info: ModuleView, bases: Seq<Text>, fault: FaultView)
    ensures
        relations::base_keys(idx, info, bases).faults.contains(fault) <==> exists|b: int|
            0 <= b < bases.len() && resolve::base_in(idx, info, #[trigger] bases[b]) == Err::<
                BaseView,
                FaultView,
            >(fault),
    decreases bases.len(),
{
    if bases.len() > 0 {
        let front = bases.drop_last();
        let before = relations::base_keys(idx, info, front).faults;
        lemma_base_faults(idx, info, front, fault);
        if let Err(last) = resolve::base_in(idx, info, bases.last()) {
            vstd::seq_lib::lemma_seq_contains_after_push(before, last, fault);
        }
        if exists|b: int|
            0 <= b < bases.len() && resolve::base_in(idx, info, #[trigger] bases[b]) == Err::<
                BaseView,
                FaultView,
            >(fault) {
            let b = choose|b: int|
                0 <= b < bases.len() && resolve::base_in(idx, info, #[trigger] bases[b]) == Err::<
                    BaseView,
                    FaultView,
                >(fault);
            if b < front.len() {
                assert(front[b] == bases[b]);
            }
        }
        if exists|b: int|
            0 <= b < front.len() && resolve::base_in(idx, info, #[trigger] front[b]) == Err::<
                BaseView,
                FaultView,
            >(fault) {
            let b = choose|b: int|
                0 <= b < front.len() && resolve::base_in(idx, info, #[trigger] front[b]) == Err::<
                    BaseView,
                    FaultView,
                >(fault);
            assert(bases[b] == front[b]);
        }
        if resolve::base_in(idx, info, bases.last()) == Err::<BaseView, FaultView>(fault) {
            assert(bases[bases.len() - 1] == bases.last());
        }
    }
}

proof fn lemma_class_faults(idx: IndexView, name: Text, info: ModuleView, classes: Seq<ClassView>, fault: FaultView)
    ensures
        relations::classes_subtypes(idx, name, info, classes).faults.contains(fault) <==> base_is_stuck(
            idx,
            info,
            classes,
            fault,
        ),
    decreases classes.len(),
{
    if classes.len() > 0 {
        let front = classes.drop_last();
        let last = classes.last();
        lemma_class_faults(idx, name, info, front, fault);
        lemma_base_faults(idx, info, last.bases, fault);
        vstd::seq_lib::lemma_seq_concat_contains_all_elements(
            relations::classes_subtypes(idx, name, info, front).faults,
            relations::class_subtypes(idx, name, info, last).faults,
            fault,
        );
        if base_is_stuck(idx, info, classes, fault) {
            let (k, b) = choose|k: int, b: int|
                0 <= k < classes.len() && 0 <= b < classes[k].bases.len() && resolve::base_in(
                    idx,
                    info,
                    #[trigger] classes[k].bases[b],
                ) == Err::<BaseView, FaultView>(fault);
            if k < front.len() {
                assert(front[k].bases[b] == classes[k].bases[b]);
            } else {
                assert(last.bases[b] == classes[k].bases[b]);
            }
        }
        if base_is_stuck(idx, info, front, fault) {
            let (k, b) = choose|k: int, b: int|
                0 <= k < front.len() && 0 <= b < front[k].bases.len() && resolve::base_in(
                    idx,
                    info,
                    #[trigger] front[k].bases[b],
                ) == Err::<BaseView, FaultView>(fault);
            assert(classes[k].bases[b] == front[k].bases[b]);
        }
        if exists|b: int|
            0 <= b < last.bases.len() && resolve::base_in(idx, info, #[trigger] last.bases[b]) == Err::<
                BaseView,
                FaultView,
            >(fault) {
            let b = choose|b: int|
                0 <= b < last.bases.len() && resolve::base_in(idx, info, #[trigger] last.bases[b]) == Err::<
                    BaseView,
                    FaultView,
                >(fault);
            assert(classes[classes.len() - 1].bases[b] == last.bases[b]);
        }
    }
}

/// Whether a call of one of these functions cannot be followed, for a reason.
pub open spec fn call_is_stuck(idx: IndexView, info: ModuleView, functions: Seq<FunctionView>, fault: FaultView) -> bool {
    exists|f: int, c: int|
        0 <= f < functions.len() && 0 <= c < functions[f].calls.len() && callables::callable_in(
            idx,
            info,
            functions[f],
            (#[trigger] functions[f].calls[c]).raw_target,
        ) == Err::<Option<callables::CallableView>, FaultView>(fault)
}

proof fn lemma_call_faults(idx: IndexView, info: ModuleView, function: FunctionView, caller: callables::CallableView, calls: Seq<CallView>, fault: FaultView)
    ensures
        relations::call_links(idx, info, function, caller, calls).faults.contains(fault) <==> exists|c: int|
            0 <= c < calls.len() && callables::callable_in(idx, info, function, (#[trigger] calls[c]).raw_target)
                == Err::<Option<callables::CallableView>, FaultView>(fault),
    decreases calls.len(),
{
    if calls.len() > 0 {
        let front = calls.drop_last();
        let before = relations::call_links(idx, info, function, caller, front).faults;
        lemma_call_faults(idx, info, function, caller, front, fault);
        if let Err(last) = callables::callable_in(idx, info, function, calls.last().raw_target) {
            vstd::seq_lib::lemma_seq_contains_after_push(before, last, fault);
        }
        if exists|c: int|
            0 <= c < calls.len() && callables::callable_in(idx, info, function, (#[trigger] calls[c]).raw_target)
                == Err::<Option<callables::CallableView>, FaultView>(fault) {
            let c = choose|c: int|
                0 <= c < calls.len() && callables::callable_in(idx, info, function, (#[trigger] calls[c]).raw_target)
                    == Err::<Option<callables::CallableView>, FaultView>(fault);
            if c < front.len() {
                assert(front[c] == calls[c]);
            }
        }
        if exists|c: int|
            0 <= c < front.len() && callables::callable_in(idx, info, function, (#[trigger] front[c]).raw_target)
                == Err::<Option<callables::CallableView>, FaultView>(fault) {
            let c = choose|c: int|
                0 <= c < front.len() && callables::callable_in(idx, info, function, (#[trigger] front[c]).raw_target)
                    == Err::<Option<callables::CallableView>, FaultView>(fault);
            assert(calls[c] == front[c]);
        }
        if callables::callable_in(idx, info, function, calls.last().raw_target) == Err::<
            Option<callables::CallableView>,
            FaultView,
        >(fault) {
            assert(calls[calls.len() - 1] == calls.last());
        }
    }
}

proof fn lemma_function_faults(idx: IndexView, info: ModuleView, functions: Seq<FunctionView>, fault: FaultView)
    ensures
        relations::function_links(idx, info, functions).faults.contains(fault) <==> call_is_stuck(
            idx,
            info,
            functions,
            fault,
        ),
    decreases functions.len(),
{
    if functions.len() > 0 {
        let front = functions.drop_last();
        let last = functions.last();
        let caller = relations::caller_of(info, last);
        lemma_function_faults(idx, info, front, fault);
        lemma_call_faults(idx, info, last, caller, last.calls, fault);
        vstd::seq_lib::lemma_seq_concat_contains_all_elements(
            relations::function_links(idx, info, front).faults,
            relations::call_links(idx, info, last, caller, last.calls).faults,
            fault,
        );
        if call_is_stuck(idx, info, functions, fault) {
            let (f, c) = choose|f: int, c: int|
                0 <= f < functions.len() && 0 <= c < functions[f].calls.len() && callables::callable_in(
                    idx,
                    info,
                    functions[f],
                    (#[trigger] functions[f].calls[c]).raw_target,
                ) == Err::<Option<callables::CallableView>, FaultView>(fault);
            if f < front.len() {
                assert(front[f].calls[c] == functions[f].calls[c]);
            } else {
                assert(last.calls[c] == functions[f].calls[c]);
            }
        }
        if call_is_stuck(idx, info, front, fault) {
            let (f, c) = choose|f: int, c: int|
                0 <= f < front.len() && 0 <= c < front[f].calls.len() && callables::callable_in(
                    idx,
                    info,
                    front[f],
                    (#[trigger] front[f].calls[c]).raw_target,
                ) == Err::<Option<callables::CallableView>, FaultView>(fault);
            assert(functions[f].calls[c] == front[f].calls[c]);
        }
        if exists|c: int|
            0 <= c < last.calls.len() && callables::callable_in(idx, info, last, (#[trigger] last.calls[c]).raw_target)
                == Err::<Option<callables::CallableView>, FaultView>(fault) {
            let c = choose|c: int|
                0 <= c < last.calls.len() && callables::callable_in(
                    idx,
                    info,
                    last,
                    (#[trigger] last.calls[c]).raw_target,
                ) == Err::<Option<callables::CallableView>, FaultView>(fault);
            assert(functions[functions.len() - 1].calls[c] == last.calls[c]);
        }
    }
}

proof fn lemma_workspace_faults(idx: IndexView, modules: Seq<Text>, fault: FaultView)
    ensures
        relations::workspace_subtypes(idx, modules).faults.contains(fault) <==> exists|m: int|
            0 <= m < modules.len() && base_is_stuck(
                idx,
                idx.workspace[#[trigger] modules[m]],
                idx.workspace[modules[m]].classes,
                fault,
            ),
        relations::workspace_links(idx, modules).faults.contains(fault) <==> exists|m: int|
            0 <= m < modules.len() && call_is_stuck(
                idx,
                idx.workspace[#[trigger] modules[m]],
                idx.workspace[modules[m]].functions,
                fault,
            ),
    decreases modules.len(),
{
    if modules.len() > 0 {
        let n = modules.len() - 1;
        let front = modules.drop_last();
        let name = modules.last();
        let info = idx.workspace[name];
        lemma_workspace_faults(idx, front, fault);
        lemma_class_faults(idx, name, info, info.classes, fault);
        lemma_function_faults(idx, info, info.functions, fault);
        vstd::seq_lib::lemma_seq_concat_contains_all_elements(
            relations::workspace_subtypes(idx, front).faults,
            relations::classes_subtypes(idx, name, info, info.classes).faults,
            fault,
        );
        vstd::seq_lib::lemma_seq_concat_contains_all_elements(
            relations::workspace_links(idx, front).faults,
            relations::function_links(idx, info, info.functions).faults,
            fault,
        );
        assert(modules[n as int] == name);
        assert forall|m: int| 0 <= m < n implies front[m] == #[trigger] modules[m] by {
        }
        assert forall|m: int| 0 <= m < n implies #[trigger] front[m] == modules[m] by {
        }
    }
}

/// A workspace cannot be linked for a reason exactly where a base of one of its classes, or a call of
/// one of its functions, cannot be followed for that reason.
pub proof fn law_linking_reports_what_is_stuck(idx: IndexView, fault: FaultView)
    requires
        idx.workspace.dom() == idx.order.to_set(),
    ensures
        relations::link_faults(idx).contains(fault) <==> exists|m: Text| #[trigger]
            idx.workspace.contains_key(m) && (base_is_stuck(idx, idx.workspace[m], idx.workspace[m].classes, fault)
                || call_is_stuck(idx, idx.workspace[m], idx.workspace[m].functions, fault)),
{
    let order = idx.order;
    lemma_workspace_faults(idx, order, fault);
    vstd::seq_lib::lemma_seq_concat_contains_all_elements(
        relations::workspace_subtypes(idx, order).faults,
        relations::workspace_links(idx, order).faults,
        fault,
    );
    assert forall|m: Text| idx.workspace.contains_key(m) implies exists|k: int| 0 <= k < order.len() && #[trigger] order[k]
        == m by {
        assert(order.to_set().contains(m));
        assert(order[order.index_of(m)] == m);
    }
    assert forall|k: int| 0 <= k < order.len() implies idx.workspace.contains_key(#[trigger] order[k]) by {
        assert(order.to_set().contains(order[k]));
    }
}

} // verus!
