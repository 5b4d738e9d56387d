//! Paths and module names. A path is written with `/` between its segments; empty segments, and
//! single dots behind the first segment, name nothing.
use vstd::prelude::*;

use crate::sorting;
use crate::sorting::key_of_components;
use crate::sorting::sort_keyed;
use crate::text;
use crate::text::cat;
use crate::text::cat3;
use crate::text::chars_of;
use crate::text::join_text;
use crate::text::same;
use crate::text::split_last;
use crate::text::split_text;
use crate::text::starts_with;
use crate::text::without_suffix;
use crate::text::Text;

verus! {

/// The parts of a path that name something: not the empty ones, nor single dots behind the first.
pub open spec fn naming(parts: Seq<Text>) -> Seq<Text>
    decreases parts.len(),
{
    if parts.len() == 0 {
        Seq::empty()
    } else if parts.last().len() == 0 || parts.len() > 1 && parts.last() == "."@ {
        naming(parts.drop_last())
    } else {
        naming(parts.drop_last()).push(parts.last())
    }
}

/// The segments of a path.
pub open spec fn segments(path: Text) -> Seq<Text> {
    naming(text::split(path, Some('/')))
}

/// Whether a path starts at the root of the file system.
pub open spec fn is_absolute(path: Text) -> bool {
    text::begins(path, "/"@)
}

/// The components of a path: the root, where it starts there, and its segments.
pub open spec fn components(path: Text) -> Seq<Text> {
    if is_absolute(path) {
        seq!["/"@] + segments(path)
    } else {
        segments(path)
    }
}

/// The plain form of a path: its segments and nothing else. Two paths with the same plain form are
/// the same path.
pub open spec fn plain(path: Text) -> Text {
    if is_absolute(path) {
        seq!['/'] + text::joined(segments(path), seq!['/'])
    } else {
        text::joined(segments(path), seq!['/'])
    }
}

/// Whether `path` is `root` or lies below it. Every path lies below the empty one.
pub open spec fn is_under(path: Text, root: Text) -> bool {
    &&& components(root).len() <= components(path).len()
    &&& components(path).take(components(root).len() as int) == components(root)
}

/// The components of `path` behind those of `root`.
pub open spec fn below(path: Text, root: Text) -> Seq<Text> {
    components(path).skip(components(root).len() as int)
}

/// Whether a file name is that of a package's own module.
pub open spec fn is_init(file_name: Text) -> bool {
    file_name == "__init__.py"@ || file_name == "__init__.pyi"@
}

/// A file name without the ending of a Python source.
pub open spec fn stem(file_name: Text) -> Text {
    if text::ends(file_name, ".py"@) {
        file_name.subrange(0, file_name.len() - ".py"@.len())
    } else if text::ends(file_name, ".pyi"@) {
        file_name.subrange(0, file_name.len() - ".pyi"@.len())
    } else {
        file_name
    }
}

/// The parts of the name of the module in a file at these segments: a package's own module has
/// the package's name.
pub open spec fn module_parts(parts: Seq<Text>) -> Seq<Text> {
    if is_init(parts.last()) {
        parts.drop_last()
    } else {
        parts.drop_last().push(stem(parts.last()))
    }
}

/// Why a path has no module name.
#[derive(Debug)]
pub enum PathError {
    NotUnder { path: String, root: String },
    Empty { path: String },
}

/// What a path error is.
pub enum PathErrorView {
    NotUnder { path: Text, root: Text },
    Empty { path: Text },
}

impl DeepView for PathError {
    type V = PathErrorView;

    open spec fn deep_view(&self) -> PathErrorView {
        match self {
            PathError::NotUnder { path, root } => PathErrorView::NotUnder { path: path@, root: root@ },
            PathError::Empty { path } => PathErrorView::Empty { path: path@ },
        }
    }
}

impl PathErrorView {
    /// What the error is reported as.
    pub open spec fn message(self) -> Text {
        match self {
            PathErrorView::NotUnder { path, root } => path + " is not under "@ + root,
            PathErrorView::Empty { path } => "empty module path for "@ + path,
        }
    }
}

impl PathError {
    /// What the error is reported as.
    pub fn message(&self) -> (message: String)
        ensures
            message@ == self.deep_view().message(),
    {
        match self {
            PathError::NotUnder { path, root } => cat3(
                path.as_str(),
                " is not under ",
                root.as_str(),
            ),
            PathError::Empty { path } => cat("empty module path for ", path.as_str()),
        }
    }
}

/// The name of the module in the file at `path`, imported from `root`.
pub open spec fn module_name_at(root: Text, path: Text) -> Result<Text, PathErrorView> {
    if !is_under(path, root) {
        Err(PathErrorView::NotUnder { path, root })
    } else if below(path, root).len() == 0 {
        Err(PathErrorView::Empty { path })
    } else {
        Ok(text::joined(text::filled(module_parts(below(path, root))), "."@))
    }
}

/// The package that relative imports of a module start from.
pub open spec fn package_of(path: Text, module_name: Text) -> Text {
    if segments(path).len() > 0 && is_init(segments(path).last()) {
        module_name
    } else {
        match text::split_at_last(module_name, '.') {
            Some((package, _)) => package,
            None => Seq::empty(),
        }
    }
}

/// The file names that a module of this name can have below an import root, the first one first.
pub open spec fn module_files(module_name: Text) -> Seq<Seq<Text>> {
    let parts = text::split(module_name, Some('.'));
    let dirs = parts.drop_last();
    let leaf = parts.last();
    seq![
        dirs.push(leaf + ".pyi"@),
        dirs.push(leaf + ".py"@),
        dirs.push(leaf).push("__init__.pyi"@),
        dirs.push(leaf).push("__init__.py"@),
    ]
}

/// The files in which a module of this name can be below an import root, the first one first.
pub open spec fn module_paths(root: Text, module_name: Text) -> Seq<Text> {
    module_files(module_name).map_values(|file: Seq<Text>| path_below(root, file))
}

/// Whether a directory of this name is passed over when looking for sources.
pub open spec fn is_skipped(name: Text) -> bool {
    ||| name == ".git"@
    ||| name == ".hg"@
    ||| name == ".svn"@
    ||| name == ".mypy_cache"@
    ||| name == ".pytest_cache"@
    ||| name == ".ruff_cache"@
    ||| name == ".tox"@
    ||| name == ".venv"@
    ||| name == "__pycache__"@
    ||| name == "node_modules"@
    ||| name == "site-packages"@
    ||| name == "dist-packages"@
}

/// Whether a file of this name is a Python source: what follows its last dot says so, and
/// something stands before that dot.
pub open spec fn is_source(file_name: Text) -> bool {
    match text::split_at_last(file_name, '.') {
        Some((before, ending)) => before.len() > 0 && (ending == "py"@ || ending == "pyi"@),
        None => false,
    }
}

/// What orders a path: its components, one after the other.
pub open spec fn order_key(path: Text) -> sorting::Key {
    sorting::components_key(components(path))
}

/// The plain forms of paths.
pub open spec fn forms(paths: Seq<Text>) -> Seq<Text> {
    paths.map_values(|path: Text| plain(path))
}

/// Whether a path is among paths, in whatever form.
pub open spec fn holds_path(paths: Seq<Text>, path: Text) -> bool {
    forms(paths).contains(plain(path))
}

/// The paths, each once where equal ones stand together.
pub open spec fn unrepeated(items: Seq<Text>) -> Seq<Text>
    decreases items.len(),
{
    if items.len() < 2 {
        items
    } else if plain(items.last()) == plain(items[items.len() - 2]) {
        unrepeated(items.drop_last())
    } else {
        unrepeated(items.drop_last()).push(items.last())
    }
}

/// The paths in order, each once.
pub open spec fn ordered_paths(paths: Seq<Text>) -> Seq<Text> {
    unrepeated(sorting::sorted(paths, |p: Text| order_key(p)))
}

/// The paths known, and behind them those discovered that were not.
pub open spec fn extended(known: Seq<Text>, discovered: Seq<Text>) -> Seq<Text>
    decreases discovered.len(),
{
    if discovered.len() == 0 {
        known
    } else {
        let before = extended(known, discovered.drop_last());
        if holds_path(before, discovered.last()) {
            before
        } else {
            before.push(discovered.last())
        }
    }
}

/// The segments of a path.
pub fn path_segments(path: &str) -> (parts: Vec<String>)
    ensures
        parts.deep_view() == segments(path@),
{
    let all = split_text(path, Some('/'));
    let ghost whole = all.deep_view();
    let mut parts: Vec<String> = Vec::new();
    let mut i: usize = 0;
    assert(parts.deep_view() =~= naming(whole.take(0)));
    while i < all.len()
        invariant
            i <= all@.len(),
            whole == all.deep_view(),
            parts.deep_view() == naming(whole.take(i as int)),
        decreases all@.len() - i,
    {
        assert(whole.take(i as int + 1).drop_last() =~= whole.take(i as int));
        assert(whole.take(i as int + 1).last() == all@[i as int]@);
        let ghost before = parts.deep_view();
        if !all[i].as_str().is_empty() && !(i > 0 && same(all[i].as_str(), ".")) {
            parts.push(all[i].clone());
            assert(parts.deep_view() =~= before.push(whole[i as int]));
        }
        i = i + 1;
    }
    assert(whole.take(i as int) =~= whole);
    parts
}

/// The components of a path.
pub fn path_components(path: &str) -> (parts: Vec<String>)
    ensures
        parts.deep_view() == components(path@),
{
    let mut parts = path_segments(path);
    if starts_with(path, "/") {
        let ghost tail = parts.deep_view();
        parts.insert(0, "/".to_owned());
        assert(parts.deep_view() =~= seq!["/"@] + tail);
    }
    parts
}

/// The plain form of a path.
pub fn plain_path(path: &str) -> (r: String)
    ensures
        r@ == plain(path@),
{
    let parts = path_segments(path);
    proof {
        reveal_strlit("/");
        assert("/"@ =~= seq!['/']);
    }
    let tail = join_text(&parts, "/");
    if starts_with(path, "/") {
        cat("/", tail.as_str())
    } else {
        tail
    }
}

/// What orders a path.
pub fn order_key_of(path: &str) -> (key: Vec<u64>)
    ensures
        key@ == order_key(path@),
{
    let parts = path_components(path);
    key_of_components(&parts)
}

/// Whether no part holds a separator.
spec fn unseparated(parts: Seq<Text>) -> bool {
    forall|i: int| 0 <= i < parts.len() ==> !(#[trigger] parts[i]).contains('/')
}

/// Whether the segments of a path stand as they are in its plain form: none is empty or holds a
/// separator, and none but the first is a single dot.
spec fn stands_plainly(parts: Seq<Text>) -> bool {
    forall|i: int|
        0 <= i < parts.len() ==> (#[trigger] parts[i]).len() > 0 && !parts[i].contains('/') && (i > 0
            ==> parts[i] != "."@)
}

proof fn lemma_naming(parts: Seq<Text>)
    requires
        unseparated(parts),
    ensures
        stands_plainly(naming(parts)),
        naming(parts).len() <= parts.len(),
        parts.len() > 0 && naming(parts).len() > 0 && naming(parts)[0] == "."@ ==> parts[0] == "."@,
    decreases parts.len(),
{
    if parts.len() > 0 {
        let front = parts.drop_last();
        assert forall|i: int| 0 <= i < front.len() implies !(#[trigger] front[i]).contains('/') by {
            assert(!parts[i].contains('/'));
        }
        lemma_naming(front);
        assert(!parts[parts.len() - 1].contains('/'));
    }
}

proof fn lemma_naming_keeps(parts: Seq<Text>)
    requires
        stands_plainly(parts),
    ensures
        naming(parts) == parts,
    decreases parts.len(),
{
    if parts.len() > 0 {
        let front = parts.drop_last();
        assert forall|i: int| 0 <= i < front.len() implies (#[trigger] front[i]).len() > 0
            && !front[i].contains('/') && (i > 0 ==> front[i] != "."@) by {
            assert(parts[i].len() > 0);
        }
        lemma_naming_keeps(front);
        assert(parts[parts.len() - 1].len() > 0);
        assert(front.push(parts.last()) =~= parts);
    }
}

proof fn lemma_naming_behind_empty(parts: Seq<Text>)
    requires
        stands_plainly(parts),
        parts.len() > 0 ==> parts[0] != "."@,
    ensures
        naming(seq![Seq::<char>::empty()] + parts) == parts,
    decreases parts.len(),
{
    let all = seq![Seq::<char>::empty()] + parts;
    if parts.len() == 0 {
        reveal_with_fuel(naming, 2);
        assert(naming(all) =~= parts);
    } else {
        let front = parts.drop_last();
        assert forall|i: int| 0 <= i < front.len() implies (#[trigger] front[i]).len() > 0
            && !front[i].contains('/') && (i > 0 ==> front[i] != "."@) by {
            assert(parts[i].len() > 0);
        }
        assert(front.len() > 0 ==> front[0] == parts[0]);
        lemma_naming_behind_empty(front);
        assert(all.drop_last() =~= seq![Seq::<char>::empty()] + front);
        assert(parts[parts.len() - 1].len() > 0);
        assert(front.push(parts.last()) =~= parts);
    }
}

proof fn lemma_unseparated_split(path: Text)
    ensures
        unseparated(text::split(path, Some('/'))),
        text::split(path, Some('/')).len() >= 1,
        is_absolute(path) ==> text::split(path, Some('/'))[0].len() == 0,
{
    let at = Some('/');
    let parts = text::split(path, at);
    text::law_split_parts_are_unbroken(path, at);
    assert forall|i: int| 0 <= i < parts.len() implies !(#[trigger] parts[i]).contains('/') by {
        if parts[i].contains('/') {
            let k = parts[i].index_of('/');
            assert(!text::breaks(parts[i][k], at));
        }
    }
    reveal_strlit("/");
    if is_absolute(path) {
        assert(path.subrange(0, 1)[0] == '/');
        lemma_split_behind_mark(path);
    }
}

proof fn lemma_split_behind_mark(path: Text)
    requires
        path.len() > 0,
        path[0] == '/',
    ensures
        text::split(path, Some('/')) == seq![Seq::<char>::empty()] + text::split(path.drop_first(), Some('/')),
    decreases path.len(),
{
    let at = Some('/');
    let rest = path.drop_first();
    text::law_split_parts_are_unbroken(rest, at);
    if path.len() == 1 {
        reveal_with_fuel(text::split, 2);
        assert(path.drop_last() =~= Seq::<char>::empty());
        assert(rest =~= Seq::<char>::empty());
        assert(text::split(path, at) =~= seq![Seq::<char>::empty()] + text::split(rest, at));
    } else {
        lemma_split_behind_mark(path.drop_last());
        assert(path.drop_last().drop_first() =~= rest.drop_last());
        text::law_split_parts_are_unbroken(rest.drop_last(), at);
        assert(path.last() == rest.last());
        let before = text::split(rest.drop_last(), at);
        let lead = seq![Seq::<char>::empty()];
        assert((lead + before).drop_last() =~= lead + before.drop_last());
        assert((lead + before).last() == before.last());
        assert(text::split(path, at) =~= lead + text::split(rest, at));
    }
}

proof fn lemma_segments(path: Text)
    ensures
        stands_plainly(segments(path)),
        is_absolute(path) && segments(path).len() > 0 ==> segments(path)[0] != "."@,
{
    reveal_strlit(".");
    lemma_unseparated_split(path);
    lemma_naming(text::split(path, Some('/')));
}

proof fn lemma_split_joined(parts: Seq<Text>)
    requires
        stands_plainly(parts),
        parts.len() > 0,
    ensures
        text::split(text::joined(parts, seq!['/']), Some('/')) == parts,
        text::joined(parts, seq!['/']).len() > 0,
        text::joined(parts, seq!['/'])[0] != '/',
{
    let at = Some('/');
    let whole = text::joined(parts, seq!['/']);
    assert forall|i: int, k: int| 0 <= i < parts.len() && 0 <= k < parts[i].len() implies !text::breaks(
        #[trigger] parts[i][k],
        at,
    ) by {
        assert(!parts[i].contains('/'));
        assert(parts[i].contains(parts[i][k]));
    }
    text::law_split_undoes_join(parts, '/', at);
    if whole.len() == 0 {
        assert(whole =~= Seq::<char>::empty());
        assert(parts[0].len() > 0);
    } else if whole[0] == '/' {
        lemma_split_behind_mark(whole);
        assert(parts[0].len() > 0);
    }
}

/// The plain form of a path has its segments, starts where it starts, and is its own plain form.
pub proof fn law_plain_paths_stay(path: Text)
    ensures
        segments(plain(path)) == segments(path),
        is_absolute(plain(path)) == is_absolute(path),
        plain(plain(path)) == plain(path),
{
    reveal_strlit("/");
    let parts = segments(path);
    let form = plain(path);
    let tail = text::joined(parts, seq!['/']);
    lemma_segments(path);
    if parts.len() > 0 {
        lemma_split_joined(parts);
    }
    if is_absolute(path) {
        assert(form.subrange(0, 1) =~= "/"@);
        assert(form.drop_first() =~= tail);
        lemma_split_behind_mark(form);
        if parts.len() == 0 {
            reveal_with_fuel(naming, 3);
            assert(text::split(tail, Some('/')) =~= seq![Seq::<char>::empty()]);
            assert(segments(form) =~= parts);
        } else {
            lemma_naming_behind_empty(parts);
        }
    } else if parts.len() == 0 {
        reveal_with_fuel(naming, 2);
        assert(form =~= Seq::<char>::empty());
        assert(segments(form) =~= parts);
    } else {
        lemma_naming_keeps(parts);
        assert(form.subrange(0, 1)[0] != '/');
    }
}

proof fn lemma_components(path: Text)
    ensures
        sorting::all_filled(components(path)),
        is_absolute(path) <==> components(path).len() > 0 && components(path)[0] == "/"@,
{
    reveal_strlit("/");
    let parts = segments(path);
    lemma_segments(path);
    assert forall|i: int| 0 <= i < components(path).len() implies (#[trigger] components(path)[i]).len()
        > 0 by {
        if is_absolute(path) && i > 0 {
            assert(parts[i - 1].len() > 0);
        } else if !is_absolute(path) {
            assert(parts[i].len() > 0);
        }
    }
    if !is_absolute(path) && parts.len() > 0 {
        assert(!parts[0].contains('/'));
        if parts[0] == "/"@ {
            assert(parts[0][0] == '/');
        }
    }
}

/// Paths are ordered component by component.
pub proof fn law_paths_are_ordered_by_components(a: Text, b: Text)
    ensures
        sorting::key_le(order_key(a), order_key(b)) == sorting::components_le(
            components(a),
            components(b),
        ),
{
    lemma_components(a);
    lemma_components(b);
    sorting::law_paths_compare_by_components(components(a), components(b));
}

/// A path seen from another: below it, or itself where it starts at the root.
pub open spec fn joined_path(base: Text, segment: Text) -> Text {
    if base.len() == 0 || is_absolute(segment) {
        segment
    } else if base.last() == '/' {
        base + segment
    } else {
        base + "/"@ + segment
    }
}

/// A path seen from another.
pub fn join_path(base: &str, segment: &str) -> (path: String)
    ensures
        path@ == joined_path(base@, segment@),
{
    let chars = chars_of(base);
    if chars.len() == 0 || starts_with(segment, "/") {
        segment.to_owned()
    } else if chars[chars.len() - 1] == '/' {
        cat(base, segment)
    } else {
        cat3(base, "/", segment)
    }
}

/// A path with segments below another.
pub open spec fn path_below(base: Text, segments: Seq<Text>) -> Text
    decreases segments.len(),
{
    if segments.len() == 0 {
        base
    } else {
        joined_path(path_below(base, segments.drop_last()), segments.last())
    }
}

/// A path with segments below another.
pub fn join_segments(base: &str, segments: &Vec<String>) -> (path: String)
    ensures
        path@ == path_below(base@, segments.deep_view()),
{
    let ghost all = segments.deep_view();
    let mut path = base.to_owned();
    let mut i: usize = 0;
    while i < segments.len()
        invariant
            i <= segments@.len(),
            all == segments.deep_view(),
            path@ == path_below(base@, all.take(i as int)),
        decreases segments@.len() - i,
    {
        assert(all.take(i as int + 1).drop_last() =~= all.take(i as int));
        assert(all.take(i as int + 1).last() == segments@[i as int]@);
        path = join_path(path.as_str(), segments[i].as_str());
        i = i + 1;
    }
    assert(all.take(i as int) =~= all);
    path
}

/// Whether a text can be a segment of a path.
pub open spec fn is_segment(s: Text) -> bool {
    s.len() > 0 && !s.contains('/') && s != "."@
}

proof fn lemma_joined_path(base: Text, segment: Text)
    requires
        is_segment(segment),
    ensures
        segments(joined_path(base, segment)) == segments(base).push(segment),
        is_absolute(joined_path(base, segment)) == is_absolute(base),
{
    reveal_strlit("/");
    let at = Some('/');
    assert forall|k: int| 0 <= k < segment.len() implies !text::breaks(#[trigger] segment[k], at) by {
        assert(segment.contains(segment[k]));
    }
    let start = if base.len() == 0 || base.last() == '/' {
        base
    } else {
        base + "/"@
    };
    assert(segment.contains(segment[0]));
    assert(segment.subrange(0, 1)[0] != '/');
    assert(joined_path(base, segment) =~= start + segment);
    text::lemma_split_unbroken_tail(start, segment, at);
    let before = text::split(start, at);
    if base.len() > 0 && base.last() != '/' {
        assert(start.drop_last() =~= base);
        assert(before.drop_last() =~= text::split(base, at));
        assert(text::filled(before) == text::filled(text::split(base, at)));
    }
    text::law_split_parts_are_unbroken(start, at);
    assert(before.last().len() == 0);
    assert(before.last() + segment =~= segment);
    let after = before.drop_last().push(segment);
    assert(after.drop_last() =~= before.drop_last());
    assert(start.len() > 0 ==> (start + segment).subrange(0, 1) =~= start.subrange(0, 1));
    assert(base.len() > 0 ==> start.subrange(0, 1) =~= base.subrange(0, 1));
    if base.len() == 0 {
        assert(segment.contains(segment[0]));
        assert((start + segment).subrange(0, 1)[0] != '/');
    }
}

/// Whether all texts can be segments of a path.
pub open spec fn are_segments(parts: Seq<Text>) -> bool {
    forall|i: int| 0 <= i < parts.len() ==> is_segment(#[trigger] parts[i])
}

/// A path below another has its segments, and behind them those added.
pub proof fn law_paths_below_keep_their_segments(base: Text, parts: Seq<Text>)
    requires
        are_segments(parts),
    ensures
        segments(path_below(base, parts)) == segments(base) + parts,
        is_absolute(path_below(base, parts)) == is_absolute(base),
        is_under(path_below(base, parts), base),
        below(path_below(base, parts), base) == parts,
    decreases parts.len(),
{
    if parts.len() == 0 {
        assert(segments(base) + parts =~= segments(base));
    } else {
        let front = parts.drop_last();
        assert(are_segments(front)) by {
            assert forall|i: int| 0 <= i < front.len() implies is_segment(#[trigger] front[i]) by {
                assert(is_segment(parts[i]));
            }
        }
        law_paths_below_keep_their_segments(base, front);
        assert(is_segment(parts[parts.len() - 1]));
        lemma_joined_path(path_below(base, front), parts.last());
        assert((segments(base) + front).push(parts.last()) =~= segments(base) + parts);
    }
    let all = components(path_below(base, parts));
    assert(all =~= components(base) + parts);
    assert(all.take(components(base).len() as int) =~= components(base));
    assert(all.skip(components(base).len() as int) =~= parts);
}

proof fn lemma_stem(leaf: Text)
    ensures
        stem(leaf + ".py"@) == leaf,
        stem(leaf + ".pyi"@) == leaf,
        is_init(leaf + ".py"@) || is_init(leaf + ".pyi"@) ==> leaf == "__init__"@,
        is_init("__init__.py"@),
        is_init("__init__.pyi"@),
{
    reveal_strlit(".py");
    reveal_strlit(".pyi");
    reveal_strlit("__init__");
    reveal_strlit("__init__.py");
    reveal_strlit("__init__.pyi");
    let plain = leaf + ".py"@;
    let stub = leaf + ".pyi"@;
    assert(plain.subrange(plain.len() - 3, plain.len() as int) =~= ".py"@);
    assert(plain.subrange(0, plain.len() - 3) =~= leaf);
    assert(stub.subrange(stub.len() - 4, stub.len() as int) =~= ".pyi"@);
    assert(stub.subrange(0, stub.len() - 4) =~= leaf);
    assert(stub.subrange(stub.len() - 3, stub.len() as int)[2] == 'i');
    assert(plain.last() == 'y' && stub.last() == 'i');
    assert("__init__.py"@.last() == 'y' && "__init__.pyi"@.last() == 'i');
    assert("__init__.py"@.subrange(0, 8) =~= "__init__"@);
    assert("__init__.pyi"@.subrange(0, 8) =~= "__init__"@);
}

/// The files in which a module is looked for are those whose module has its name: each of them, seen
/// from the import root, leads back to the name. The parts of the name are not empty and hold no
/// separator, and a file called `__init__` stands for its package.
pub proof fn law_module_files_lead_back(root: Text, name: Text, k: int)
    requires
        0 <= k < 4,
        are_segments(text::split(name, Some('.'))),
        k < 2 ==> text::split(name, Some('.')).last() != "__init__"@,
    ensures
        module_name_at(root, module_paths(root, name)[k]) == Ok::<Text, PathErrorView>(name),
{
    let parts = text::split(name, Some('.'));
    let leaf = parts.last();
    let dirs = parts.drop_last();
    let file = module_files(name)[k];
    text::law_split_parts_are_unbroken(name, Some('.'));
    text::law_join_undoes_split(name, '.');
    reveal_strlit(".");
    assert("."@ =~= seq!['.']);
    reveal_strlit(".py");
    reveal_strlit(".pyi");
    reveal_strlit("__init__.py");
    reveal_strlit("__init__.pyi");
    assert(is_segment(parts[parts.len() - 1]));
    lemma_stem(leaf);
    assert forall|i: int| 0 <= i < file.len() implies is_segment(#[trigger] file[i]) by {
        if i < dirs.len() {
            assert(is_segment(parts[i]));
        } else if i == dirs.len() {
            assert(leaf =~= parts[parts.len() - 1]);
            assert forall|m: int| 0 <= m < file[i].len() implies file[i][m] != '/' by {
                if m < leaf.len() {
                    assert(leaf.contains(leaf[m]));
                }
            }
        }
    }
    law_paths_below_keep_their_segments(root, file);
    assert(dirs.push(leaf) =~= parts);
    assert(dirs.push(leaf).drop_last() =~= dirs);
    if k < 2 {
        assert(file.drop_last() =~= dirs);
    } else {
        assert(file.drop_last() =~= dirs.push(leaf));
    }
    assert(module_parts(file) =~= parts);
    text::lemma_filled(parts);
    assert forall|i: int| 0 <= i < parts.len() implies (#[trigger] parts[i]).len() > 0 by {
        assert(is_segment(parts[i]));
    }
    assert(text::filled(parts) == parts);
}

/// Different paths have different keys, and the forms of one path have the same key.
pub proof fn law_path_keys_tell_paths_apart(a: Text, b: Text)
    ensures
        order_key(a) == order_key(b) <==> plain(a) == plain(b),
{
    lemma_components(a);
    lemma_components(b);
    law_plain_paths_stay(a);
    law_plain_paths_stay(b);
    if order_key(a) == order_key(b) {
        sorting::law_path_keys_tell_components_apart(components(a), components(b));
        if is_absolute(a) {
            assert(segments(a) =~= components(a).drop_first());
            assert(segments(b) =~= components(b).drop_first());
        }
    }
}

/// One more path has one more plain form.
pub proof fn lemma_forms_push(paths: Seq<Text>, path: Text)
    ensures
        forms(paths.push(path)) == forms(paths).push(plain(path)),
        forall|form: Text| #[trigger]
            forms(paths.push(path)).contains(form) <==> forms(paths).contains(form) || form == plain(path),
        forall|p: Text| #[trigger]
            paths.push(path).contains(p) <==> paths.contains(p) || p == path,
{
    assert(forms(paths.push(path)) =~= forms(paths).push(plain(path)));
    assert forall|form: Text| #[trigger]
        forms(paths.push(path)).contains(form) <==> forms(paths).contains(form) || form == plain(path) by {
        vstd::seq_lib::lemma_seq_contains_after_push(forms(paths), plain(path), form);
    }
    assert forall|p: Text| #[trigger] paths.push(path).contains(p) <==> paths.contains(p) || p == path by {
        vstd::seq_lib::lemma_seq_contains_after_push(paths, path, p);
    }
}

proof fn lemma_unrepeated(items: Seq<Text>)
    requires
        sorting::in_order(items, |p: Text| order_key(p)),
    ensures
        forms(unrepeated(items)).no_duplicates(),
        forall|form: Text| forms(unrepeated(items)).contains(form) <==> forms(items).contains(form),
        forall|p: Text| unrepeated(items).contains(p) ==> items.contains(p),
    decreases items.len(),
{
    let key = |p: Text| order_key(p);
    if items.len() >= 2 {
        let shorter = items.drop_last();
        assert forall|i: int, j: int| 0 <= i <= j < shorter.len() implies sorting::key_le(
            #[trigger] key(shorter[i]),
            #[trigger] key(shorter[j]),
        ) by {
            assert(sorting::key_le(key(items[i]), key(items[j])));
        }
        lemma_unrepeated(shorter);
        let kept = unrepeated(shorter);
        let last = items.last();
        let previous = items[items.len() - 2];
        assert(shorter.push(last) =~= items);
        lemma_forms_push(shorter, last);
        if plain(last) == plain(previous) {
            assert(forms(shorter)[shorter.len() - 1] == plain(previous));
            assert(forms(shorter).contains(plain(last)));
        } else {
            lemma_forms_push(kept, last);
            if forms(kept).contains(plain(last)) {
                assert(forms(shorter).contains(plain(last)));
                let i = forms(shorter).index_of(plain(last));
                assert(plain(items[i]) == plain(last));
                assert(sorting::key_le(key(items[i]), key(items[items.len() - 2])));
                assert(sorting::key_le(key(items[items.len() - 2]), key(items[items.len() - 1])));
                law_path_keys_tell_paths_apart(items[i], last);
                sorting::law_key_order_is_antisymmetric(key(last), key(previous));
                law_path_keys_tell_paths_apart(last, previous);
                assert(false);
            }
        }
    }
}

/// Import roots are listed once each, whatever form they are in; none is lost, and none comes from
/// elsewhere.
pub proof fn law_ordered_paths_are_distinct(paths: Seq<Text>)
    ensures
        forms(ordered_paths(paths)).no_duplicates(),
        forall|p: Text| holds_path(ordered_paths(paths), p) <==> holds_path(paths, p),
        forall|p: Text| ordered_paths(paths).contains(p) ==> paths.contains(p),
{
    let key = |p: Text| order_key(p);
    let items = sorting::sorted(paths, key);
    sorting::law_sorted_is_an_ordered_rearrangement(paths, key);
    lemma_unrepeated(items);
    assert forall|p: Text| items.contains(p) <==> paths.contains(p) by {
        sorting::lemma_sorted_contains(paths, key, p);
    }
    assert forall|p: Text| holds_path(items, p) <==> holds_path(paths, p) by {
        if holds_path(items, p) {
            let q = items[forms(items).index_of(plain(p))];
            assert(items.contains(q));
            assert(forms(paths)[paths.index_of(q)] == plain(p));
        }
        if holds_path(paths, p) {
            let q = paths[forms(paths).index_of(plain(p))];
            assert(paths.contains(q));
            assert(forms(items)[items.index_of(q)] == plain(p));
        }
    }
}

/// Refreshing the import roots keeps those known, in their order, and adds the others once each.
pub proof fn law_extending_keeps_what_is_known(known: Seq<Text>, discovered: Seq<Text>)
    ensures
        extended(known, discovered).len() >= known.len(),
        extended(known, discovered).take(known.len() as int) == known,
        forall|form: Text|
            forms(extended(known, discovered)).contains(form) <==> forms(known).contains(form) || forms(
                discovered,
            ).contains(form),
        forms(known).no_duplicates() ==> forms(extended(known, discovered)).no_duplicates(),
    decreases discovered.len(),
{
    if discovered.len() == 0 {
        assert(known.take(known.len() as int) =~= known);
    } else {
        let before = extended(known, discovered.drop_last());
        let last = discovered.last();
        law_extending_keeps_what_is_known(known, discovered.drop_last());
        assert(discovered.drop_last().push(last) =~= discovered);
        lemma_forms_push(discovered.drop_last(), last);
        if !holds_path(before, last) {
            let all = before.push(last);
            assert(all.take(known.len() as int) =~= before.take(known.len() as int));
            lemma_forms_push(before, last);
        }
    }
}

/// Whether two lists of segments start alike for `n` segments.
fn same_start(a: &Vec<String>, b: &Vec<String>, n: usize) -> (r: bool)
    requires
        n <= a@.len(),
        n <= b@.len(),
    ensures
        r == (a.deep_view().take(n as int) == b.deep_view().take(n as int)),
{
    let ghost va = a.deep_view();
    let ghost vb = b.deep_view();
    let mut i: usize = 0;
    while i < n
        invariant
            i <= n <= a@.len(),
            n <= b@.len(),
            va == a.deep_view(),
            vb == b.deep_view(),
            forall|k: int| 0 <= k < i ==> #[trigger] va[k] == vb[k],
        decreases n - i,
    {
        assert(va[i as int] == a@[i as int]@);
        assert(vb[i as int] == b@[i as int]@);
        if a[i] != b[i] {
            assert(va.take(n as int)[i as int] != vb.take(n as int)[i as int]);
            return false;
        }
        i = i + 1;
    }
    assert(va.take(n as int) =~= vb.take(n as int));
    true
}

/// Whether a file name is that of a package's own module.
fn init_file(file_name: &str) -> (r: bool)
    ensures
        r == is_init(file_name@),
{
    same(file_name, "__init__.py") || same(file_name, "__init__.pyi")
}

/// A file name without the ending of a Python source.
fn stem_of(file_name: &str) -> (r: String)
    ensures
        r@ == stem(file_name@),
{
    match without_suffix(file_name, ".py") {
        Some(r) => r,
        None => match without_suffix(file_name, ".pyi") {
            Some(r) => r,
            None => file_name.to_owned(),
        },
    }
}

/// The parts that hold something.
fn drop_empty(parts: Vec<String>) -> (kept: Vec<String>)
    ensures
        kept.deep_view() == text::filled(parts.deep_view()),
{
    let ghost all = parts.deep_view();
    let mut kept: Vec<String> = Vec::new();
    let mut i: usize = 0;
    assert(kept.deep_view() =~= text::filled(all.take(0)));
    while i < parts.len()
        invariant
            i <= parts@.len(),
            all == parts.deep_view(),
            kept.deep_view() == text::filled(all.take(i as int)),
        decreases parts@.len() - i,
    {
        assert(all.take(i as int + 1).drop_last() =~= all.take(i as int));
        assert(all[i as int] == parts@[i as int]@);
        let ghost before = kept.deep_view();
        if !parts[i].as_str().is_empty() {
            kept.push(parts[i].clone());
            assert(kept.deep_view() =~= before.push(all[i as int]));
        }
        i = i + 1;
    }
    assert(all.take(i as int) =~= all);
    kept
}

/// The name of the module in the file at `path`, imported from `root`.
pub fn module_name_from_path(root: &str, path: &str) -> (name: Result<String, PathError>)
    ensures
        match name {
            Ok(name) => module_name_at(root@, path@) == Ok::<Text, PathErrorView>(name@),
            Err(error) => module_name_at(root@, path@) == Err::<Text, PathErrorView>(
                error.deep_view(),
            ),
        },
{
    let root_parts = path_components(root);
    let mut parts = path_components(path);
    let ghost all = parts.deep_view();
    let n = root_parts.len();
    assert(root_parts.deep_view().take(n as int) =~= root_parts.deep_view());
    if parts.len() < n || !same_start(&parts, &root_parts, n) {
        return Err(PathError::NotUnder { path: path.to_owned(), root: root.to_owned() });
    }
    let mut relative = parts.split_off(n);
    assert(relative.deep_view() =~= all.skip(n as int));
    let ghost tail = relative.deep_view();
    match relative.pop() {
        None => Err(PathError::Empty { path: path.to_owned() }),
        Some(last) => {
            assert(last@ == tail.last());
            assert(relative.deep_view() =~= tail.drop_last());
            if !init_file(last.as_str()) {
                let ghost before = relative.deep_view();
                relative.push(stem_of(last.as_str()));
                assert(relative.deep_view() =~= before.push(stem(last@)));
            }
            let kept = drop_empty(relative);
            Ok(join_text(&kept, "."))
        },
    }
}

/// The package that relative imports of a module start from.
pub fn package_name_for_module(path: &str, module_name: &str) -> (package: String)
    ensures
        package@ == package_of(path@, module_name@),
{
    let parts = path_segments(path);
    let ghost all = parts.deep_view();
    if parts.len() > 0 {
        assert(all.last() == parts@[parts@.len() - 1]@);
        if init_file(parts[parts.len() - 1].as_str()) {
            return module_name.to_owned();
        }
    }
    match split_last(module_name, '.') {
        Some((package, _)) => package,
        None => String::new(),
    }
}

/// The list, with one more segment.
fn with_segment(dirs: &Vec<String>, segment: String) -> (r: Vec<String>)
    ensures
        r.deep_view() == dirs.deep_view().push(segment@),
{
    let mut r = dirs.clone();
    assert(r.deep_view() =~= dirs.deep_view());
    r.push(segment);
    assert(r.deep_view() =~= dirs.deep_view().push(segment@));
    r
}

/// The file names that a module of this name can have below an import root, the first one first.
pub fn module_file_candidates(module_name: &str) -> (files: Vec<Vec<String>>)
    ensures
        files.deep_view() == module_files(module_name@),
{
    let mut dirs = split_text(module_name, Some('.'));
    let ghost all = dirs.deep_view();
    let leaf = dirs.pop().unwrap();
    assert(leaf@ == all.last());
    assert(dirs.deep_view() =~= all.drop_last());
    let package = with_segment(&dirs, leaf.clone());
    let mut files: Vec<Vec<String>> = Vec::new();
    files.push(with_segment(&dirs, cat(leaf.as_str(), ".pyi")));
    files.push(with_segment(&dirs, cat(leaf.as_str(), ".py")));
    files.push(with_segment(&package, "__init__.pyi".to_owned()));
    files.push(with_segment(&package, "__init__.py".to_owned()));
    assert(files.deep_view() =~= module_files(module_name@));
    files
}

/// The files in which a module of this name can be below an import root, the first one first.
pub fn module_path_candidates(root: &str, module_name: &str) -> (found: Vec<String>)
    ensures
        found.deep_view() == module_paths(root@, module_name@),
{
    let files = module_file_candidates(module_name);
    let ghost all = files.deep_view();
    let mut found: Vec<String> = Vec::new();
    let mut i: usize = 0;
    while i < files.len()
        invariant
            i <= files@.len(),
            all == files.deep_view(),
            found@.len() == i,
            forall|k: int| 0 <= k < i ==> (#[trigger] found@[k])@ == path_below(root@, all[k]),
        decreases files@.len() - i,
    {
        assert(all[i as int] == files@[i as int].deep_view());
        found.push(join_segments(root, &files[i]));
        i = i + 1;
    }
    assert(found.deep_view() =~= module_paths(root@, module_name@));
    found
}

/// Whether a directory of this name is passed over when looking for sources.
pub fn should_skip_dir(name: &str) -> (skip: bool)
    ensures
        skip == is_skipped(name@),
{
    same(name, ".git") || same(name, ".hg") || same(name, ".svn") || same(name, ".mypy_cache")
        || same(name, ".pytest_cache") || same(name, ".ruff_cache") || same(name, ".tox") || same(
        name,
        ".venv",
    ) || same(name, "__pycache__") || same(name, "node_modules") || same(name, "site-packages")
        || same(name, "dist-packages")
}

/// Whether a file of this name is a Python source.
pub fn is_python_source(file_name: &str) -> (r: bool)
    ensures
        r == is_source(file_name@),
{
    match split_last(file_name, '.') {
        Some((before, ending)) => !before.as_str().is_empty() && (same(ending.as_str(), "py")
            || same(ending.as_str(), "pyi")),
        None => false,
    }
}

/// The paths in order.
pub fn sort_paths(paths: Vec<String>) -> (ordered: Vec<String>)
    ensures
        ordered.deep_view() == sorting::sorted(paths.deep_view(), |p: Text| order_key(p)),
{
    let mut keys: Vec<Vec<u64>> = Vec::new();
    let mut i: usize = 0;
    while i < paths.len()
        invariant
            i <= paths@.len(),
            keys@.len() == i,
            forall|k: int| 0 <= k < i ==> (#[trigger] keys@[k])@ == order_key(paths@[k]@),
        decreases paths@.len() - i,
    {
        keys.push(order_key_of(paths[i].as_str()));
        i = i + 1;
    }
    sort_keyed(paths, keys, Ghost(|p: Text| order_key(p)))
}

/// The import roots in order, each once.
pub fn order_import_roots(roots: Vec<String>) -> (ordered: Vec<String>)
    ensures
        ordered.deep_view() == ordered_paths(roots.deep_view()),
{
    let sorted = sort_paths(roots);
    let ghost all = sorted.deep_view();
    let mut ordered: Vec<String> = Vec::new();
    let mut i: usize = 0;
    assert(ordered.deep_view() =~= unrepeated(all.take(0)));
    while i < sorted.len()
        invariant
            i <= sorted@.len(),
            all == sorted.deep_view(),
            ordered.deep_view() == unrepeated(all.take(i as int)),
        decreases sorted@.len() - i,
    {
        let ghost now = all.take(i as int + 1);
        assert(now.drop_last() =~= all.take(i as int));
        assert(all[i as int] == sorted@[i as int]@);
        let ghost before = ordered.deep_view();
        if i == 0 {
            assert(now.len() == 1);
            ordered.push(sorted[i].clone());
            assert(ordered.deep_view() =~= now);
        } else {
            assert(all[i - 1] == sorted@[i - 1]@);
            assert(now[now.len() - 2] == all[i - 1]);
            let form = plain_path(sorted[i].as_str());
            let previous = plain_path(sorted[i - 1].as_str());
            if form != previous {
                ordered.push(sorted[i].clone());
                assert(ordered.deep_view() =~= before.push(all[i as int]));
            }
        }
        i = i + 1;
    }
    assert(all.take(i as int) =~= all);
    ordered
}

} // verus!
