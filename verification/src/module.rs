//! Modules of a manifest: which of them a request means, and how one is
//! linked and unlinked.

use vstd::prelude::*;
use vstd::hash_map::StringHashMap;
use vstd::hash_set::StringHashSet;
use crate::config::{ModuleConfig, PackageConfig};
use crate::error::{LinkError, LinkErrorView};
use crate::path::{absolute, absolute_path};
use crate::run::{link_run, unlink_run, Run, RunView, Task};
use crate::symlink::{link_folder, unlink_folder};

verus! {

/// A run or the failure to begin one, as a mathematical value.
pub open spec fn run_result(result: Result<Run, LinkError>) -> Result<RunView, LinkErrorView> {
    match result {
        Ok(run) => Ok(run@),
        Err(error) => Err(error@),
    }
}

/// The run that links or unlinks `module`.
///
/// Both of its directories are brought into absolute form, the link root
/// first; the first that cannot be ends the operation before it began. The
/// tree is then handled entry by entry.
pub open spec fn module_run(task: Task, module: ModuleConfig, cwd: Option<Seq<char>>) -> Result<
    RunView,
    LinkErrorView,
> {
    match absolute(module.link_root(), cwd) {
        None => Err(LinkErrorView::PathResolution { path: module.link_root() }),
        Some(link_root) => match absolute(module.source(), cwd) {
            None => Err(LinkErrorView::PathResolution { path: module.source() }),
            Some(source_root) => Ok(
                match task {
                    Task::Link => link_run(link_root, source_root, true, cwd),
                    Task::Unlink => unlink_run(link_root, source_root, true),
                },
            ),
        },
    }
}

/// Begins linking `module`: its source tree is mirrored under its link root.
pub fn link_module(module: &ModuleConfig, cwd: Option<&str>) -> (run: Result<Run, LinkError>)
    ensures
        run_result(run) == module_run(Task::Link, *module, cwd.deep_view()),
{
    let location = module.get_link_location();
    let link_root = match absolute_path(location.to.as_str(), cwd) {
        Ok(path) => path,
        Err(error) => {
            return Err(error);
        },
    };
    let source_root = match absolute_path(location.from.as_str(), cwd) {
        Ok(path) => path,
        Err(error) => {
            return Err(error);
        },
    };
    Ok(link_folder(link_root.as_str(), source_root.as_str(), true, cwd))
}

/// Begins unlinking `module`: the links to its source tree are removed from
/// its link root.
pub fn unlink_module(module: &ModuleConfig, cwd: Option<&str>) -> (run: Result<Run, LinkError>)
    ensures
        run_result(run) == module_run(Task::Unlink, *module, cwd.deep_view()),
{
    let location = module.get_link_location();
    let link_root = match absolute_path(location.to.as_str(), cwd) {
        Ok(path) => path,
        Err(error) => {
            return Err(error);
        },
    };
    let source_root = match absolute_path(location.from.as_str(), cwd) {
        Ok(path) => path,
        Err(error) => {
            return Err(error);
        },
    };
    Ok(unlink_folder(link_root.as_str(), source_root.as_str(), true))
}

/// The names of `modules`, in their order.
pub open spec fn names_of(modules: Seq<ModuleConfig>) -> Seq<Seq<char>> {
    Seq::new(modules.len(), |i: int| modules[i].name@)
}

/// The names among `requested` that are in `known`, each once, in the
/// order in which they are first asked for.
pub open spec fn matching(requested: Seq<Seq<char>>, known: Set<Seq<char>>) -> Seq<Seq<char>>
    decreases requested.len(),
{
    if requested.len() == 0 {
        Seq::empty()
    } else {
        let before = matching(requested.drop_last(), known);
        let name = requested.last();
        if known.contains(name) && !before.contains(name) {
            before.push(name)
        } else {
            before
        }
    }
}

/// The matching names are the requested names that are known, and none of
/// them comes twice.
pub proof fn lemma_matching_intersects(requested: Seq<Seq<char>>, known: Set<Seq<char>>)
    ensures
        matching(requested, known).no_duplicates(),
        forall|name: Seq<char>| #[trigger]
            matching(requested, known).contains(name) <==> requested.contains(name)
                && known.contains(name),
        matching(requested, known).to_set() == requested.to_set().intersect(known),
    decreases requested.len(),
{
    let found = matching(requested, known);
    if requested.len() > 0 {
        let earlier = requested.drop_last();
        let before = matching(earlier, known);
        let last = requested.last();
        lemma_matching_intersects(earlier, known);
        assert forall|name: Seq<char>| #[trigger]
            found.contains(name) <==> requested.contains(name) && known.contains(name) by {
            if found.contains(name) {
                let k = choose|k: int| 0 <= k < found.len() && found[k] == name;
                if k < before.len() {
                    assert(before[k] == name);
                    assert(before.contains(name));
                    let j = choose|j: int| 0 <= j < earlier.len() && earlier[j] == name;
                    assert(requested[j] == name);
                } else {
                    assert(name == last);
                    assert(requested[requested.len() - 1] == name);
                }
            }
            if requested.contains(name) && known.contains(name) {
                let j = choose|j: int| 0 <= j < requested.len() && requested[j] == name;
                if j < earlier.len() {
                    assert(earlier[j] == name);
                    assert(before.contains(name));
                    let k = choose|k: int| 0 <= k < before.len() && before[k] == name;
                    assert(found[k] == name);
                } else {
                    assert(name == last);
                    if before.contains(name) {
                        let k = choose|k: int| 0 <= k < before.len() && before[k] == name;
                        assert(found[k] == name);
                    } else {
                        assert(found[before.len() as int] == name);
                    }
                }
            }
        }
    }
    assert(found.to_set() =~= requested.to_set().intersect(known));
}

/// The requested names that the manifest declares. A requested name that
/// no module has is passed over in silence.
pub fn get_matching_modules(kdot_config: &PackageConfig, modules_names: &[String]) -> (names: Vec<
    String,
>)
    ensures
        names.deep_view() == matching(
            modules_names.deep_view(),
            names_of(kdot_config.modules@).to_set(),
        ),
{
    let ghost declared = names_of(kdot_config.modules@);
    let mut known = StringHashSet::new();
    let mut i: usize = 0;
    while i < kdot_config.modules.len()
        invariant
            i <= kdot_config.modules.len(),
            declared == names_of(kdot_config.modules@),
            known@ =~= declared.take(i as int).to_set(),
        decreases kdot_config.modules.len() - i,
    {
        let ghost name = kdot_config.modules[i as int].name@;
        known.insert(kdot_config.modules[i].name.clone());
        proof {
            let before = declared.take(i as int);
            let now = declared.take(i + 1);
            assert(now == before.push(name));
            assert forall|text: Seq<char>| now.to_set().contains(text) <==> before.to_set().insert(
                name,
            ).contains(text) by {
                if before.contains(text) {
                    let k = choose|k: int| 0 <= k < before.len() && before[k] == text;
                    assert(now[k] == text);
                }
                if text == name {
                    assert(now[i as int] == text);
                }
            }
        }
        i += 1;
    }
    assert(declared.take(i as int) == declared);
    let mut names: Vec<String> = Vec::new();
    let mut seen = StringHashSet::new();
    let mut j: usize = 0;
    assert(names.deep_view() =~= Seq::empty());
    while j < modules_names.len()
        invariant
            j <= modules_names.len(),
            known@ == declared.to_set(),
            names.deep_view() == matching(modules_names.deep_view().take(j as int), known@),
            forall|text: Seq<char>| seen@.contains(text) <==> names.deep_view().contains(text),
        decreases modules_names.len() - j,
    {
        let name = &modules_names[j];
        proof {
            let now = modules_names.deep_view().take(j + 1);
            assert(now.drop_last() == modules_names.deep_view().take(j as int));
            assert(now.last() == name@);
        }
        if known.contains(name.as_str()) && !seen.contains(name.as_str()) {
            let ghost before = names.deep_view();
            seen.insert(name.clone());
            names.push(name.clone());
            proof {
                assert(names.deep_view() =~= before.push(name@));
                assert forall|text: Seq<char>| seen@.contains(text) <==> names.deep_view().contains(
                    text,
                ) by {
                    if before.contains(text) {
                        let k = choose|k: int| 0 <= k < before.len() && before[k] == text;
                        assert(names.deep_view()[k] == text);
                    }
                    if text == name@ {
                        assert(names.deep_view()[before.len() as int] == text);
                    }
                }
            }
        }
        j += 1;
    }
    assert(modules_names.deep_view().take(j as int) == modules_names.deep_view());
    names
}

/// The modules by name. Where a name is declared more than once, the last
/// module that has it is the one it names.
pub open spec fn module_map<'a>(modules: Seq<ModuleConfig>) -> Map<Seq<char>, &'a ModuleConfig>
    decreases modules.len(),
{
    if modules.len() == 0 {
        Map::empty()
    } else {
        module_map(modules.drop_last()).insert(modules.last().name@, &modules.last())
    }
}

/// The names in the index are the names of the modules.
pub proof fn lemma_module_map_names(modules: Seq<ModuleConfig>)
    ensures
        module_map(modules).dom() == names_of(modules).to_set(),
    decreases modules.len(),
{
    let names = names_of(modules);
    if modules.len() > 0 {
        let earlier = modules.drop_last();
        lemma_module_map_names(earlier);
        assert forall|name: Seq<char>|
            module_map(modules).dom().contains(name) <==> names.to_set().contains(name) by {
            if names_of(earlier).contains(name) {
                let k = choose|k: int| 0 <= k < earlier.len() && names_of(earlier)[k] == name;
                assert(names[k] == name);
            }
            if name == modules.last().name@ {
                assert(names[modules.len() - 1] == name);
            }
            if names.contains(name) {
                let k = choose|k: int| 0 <= k < names.len() && names[k] == name;
                if k < earlier.len() {
                    assert(names_of(earlier)[k] == name);
                }
            }
        }
    }
    assert(module_map(modules).dom() =~= names.to_set());
}

/// A name leads to the last module that has it: a module after which no
/// module of the same name comes is the one that its name is mapped to.
pub proof fn lemma_module_map_keeps_last(modules: Seq<ModuleConfig>, i: int)
    requires
        0 <= i < modules.len(),
        forall|j: int| i < j < modules.len() ==> modules[j].name@ != modules[i].name@,
    ensures
        module_map(modules).contains_key(modules[i].name@),
        *module_map(modules)[modules[i].name@] == modules[i],
    decreases modules.len(),
{
    if i < modules.len() - 1 {
        let earlier = modules.drop_last();
        assert(earlier[i] == modules[i]);
        assert forall|j: int| i < j < earlier.len() implies earlier[j].name@ != earlier[i].name@ by {
            assert(earlier[j] == modules[j]);
        }
        lemma_module_map_keeps_last(earlier, i);
        assert(modules.last() == modules[modules.len() - 1]);
    }
}

/// The module that a declared name leads to is a module of the manifest
/// and has that name.
pub proof fn lemma_module_map_holds_modules(modules: Seq<ModuleConfig>, name: Seq<char>)
    requires
        module_map(modules).contains_key(name),
    ensures
        modules.contains(*module_map(modules)[name]),
        module_map(modules)[name].name@ == name,
    decreases modules.len(),
{
    if modules.len() > 0 {
        let earlier = modules.drop_last();
        if modules.last().name@ == name {
            assert(modules[modules.len() - 1] == modules.last());
        } else {
            lemma_module_map_holds_modules(earlier, name);
            let k = choose|k: int| 0 <= k < earlier.len() && earlier[k] == *module_map(earlier)[name];
            assert(modules[k] == earlier[k]);
        }
    }
}

/// Indexes the modules of the manifest by name.
pub fn get_module_map<'a>(kdot_config: &'a PackageConfig) -> (map: StringHashMap<&'a ModuleConfig>)
    ensures
        map@ == module_map(kdot_config.modules@),
{
    let mut map: StringHashMap<&'a ModuleConfig> = StringHashMap::new();
    let mut i: usize = 0;
    while i < kdot_config.modules.len()
        invariant
            i <= kdot_config.modules.len(),
            map@ == module_map(kdot_config.modules@.take(i as int)),
        decreases kdot_config.modules.len() - i,
    {
        let module = &kdot_config.modules[i];
        proof {
            let now = kdot_config.modules@.take(i + 1);
            assert(now.drop_last() == kdot_config.modules@.take(i as int));
            assert(now.last() == *module);
        }
        map.insert(module.name.clone(), module);
        i += 1;
    }
    assert(kdot_config.modules@.take(i as int) == kdot_config.modules@);
    map
}

} // verus!
