//! The decisions behind the toolchain's tier-2 plugin functions: how a
//! dependencies root is prepared, which implicit project relationships the
//! manifests imply, how manifest coordinates map onto moon's dependency
//! model, when a project's `moon.yml` is rewritten, and what goes into a
//! task hash.
use vstd::prelude::*;
use moon_pdk_api::UnresolvedVersionSpec;
use crate::closure::{ClosureContents, ClosureError};
use crate::config::ClojureToolchainConfig;
use crate::deps_edn::{
    parse_result, spec_local_deps, CoordView, DepCoord, DepMap, DepsEdn, DepsEdnError, DepsView,
};
use crate::paths::{dot, normalize_rel_source, rel_source};
use crate::sorted::{assoc_get, assoc_insert, insert_index, keys_of, lemma_insert_index, SortedMap, StrSet};
use crate::sync::{
    find_line, has_unmanaged_file_groups, join_lines, law_splice_rendered_idempotent, lines, markers_in_order,
    pad_blank, plain_line, render_local_deps_block, rendered, splice_managed_block, splice_result, unmanaged_groups,
    BLOCK_END, BLOCK_START,
};
use crate::text::{chars_of, push_char, str_eq};

verus! {

// ---------------------------------------------------------------------------
// Preparing dependencies.

/// The parts joined with `sep` between them.
pub open spec fn join_sep(parts: Seq<Seq<char>>, sep: char) -> Seq<char>
    decreases parts.len(),
{
    if parts.len() == 0 {
        Seq::empty()
    } else if parts.len() == 1 {
        parts[0]
    } else {
        join_sep(parts.drop_last(), sep) + seq![sep] + parts.last()
    }
}

/// A command to run in the dependencies root.
#[derive(Clone, Debug, PartialEq)]
pub struct InstallCommand {
    pub command: String,
    pub args: Vec<String>,
}

/// `clojure -P [-A:a:b]` for a `deps.edn` root, `bb prepare` for a
/// `bb.edn`-only root, nothing otherwise.
pub open spec fn install_spec(has_deps_edn: bool, has_bb_edn: bool, aliases: Seq<Seq<char>>) -> Option<
    (Seq<char>, Seq<Seq<char>>),
> {
    if has_deps_edn {
        Some(
            (
                "clojure"@,
                seq!["-P"@] + if aliases.len() > 0 {
                    seq!["-A:"@ + join_sep(aliases, ':')]
                } else {
                    Seq::empty()
                },
            ),
        )
    } else if has_bb_edn {
        Some(("bb"@, seq!["prepare"@]))
    } else {
        None
    }
}

/// Warm the dependency caches (`~/.m2`, `~/.gitlibs`, `.cpcache`) ahead of
/// task execution: `clojure -P` for deps.edn roots, `bb prepare` for
/// bb.edn-only roots.
pub fn install_command(has_deps_edn: bool, has_bb_edn: bool, config: &ClojureToolchainConfig) -> (r: Option<
    InstallCommand,
>)
    ensures
        match install_spec(has_deps_edn, has_bb_edn, config.prepare_aliases.deep_view()) {
            None => r is None,
            Some((cmd, args)) => r matches Some(c) && c.command@ == cmd && c.args.deep_view() == args,
        },
{
    if has_deps_edn {
        let mut args: Vec<String> = Vec::new();
        args.push("-P".to_owned());
        let ghost al = config.prepare_aliases.deep_view();
        if config.prepare_aliases.len() > 0 {
            let mut flag = "-A:".to_owned();
            let mut i: usize = 0;
            while i < config.prepare_aliases.len()
                invariant
                    i <= config.prepare_aliases.len(),
                    al == config.prepare_aliases.deep_view(),
                    flag@ == "-A:"@ + join_sep(al.take(i as int), ':'),
                decreases config.prepare_aliases.len() - i,
            {
                assert(al.take(i + 1).drop_last() =~= al.take(i as int));
                assert(al.take(i + 1).last() == config.prepare_aliases[i as int]@);
                if i > 0 {
                    push_char(&mut flag, ':');
                } else {
                    assert(join_sep(al.take(0), ':') =~= Seq::<char>::empty());
                }
                flag.append(config.prepare_aliases[i].as_str());
                if i == 0 {
                    assert(flag@ =~= "-A:"@ + join_sep(al.take(1), ':'));
                } else {
                    assert(flag@ =~= "-A:"@ + join_sep(al.take(i + 1), ':'));
                }
                i = i + 1;
            }
            assert(al.take(al.len() as int) =~= al);
            args.push(flag);
            assert(args.deep_view() =~= seq!["-P"@] + seq!["-A:"@ + join_sep(al, ':')]);
        } else {
            assert(args.deep_view() =~= seq!["-P"@]);
        }
        let r = InstallCommand { command: "clojure".to_owned(), args };
        Some(r)
    } else if has_bb_edn {
        let mut args: Vec<String> = Vec::new();
        args.push("prepare".to_owned());
        let r = InstallCommand { command: "bb".to_owned(), args };
        assert(r.args.deep_view() =~= seq!["prepare"@]);
        Some(r)
    } else {
        None
    }
}

/// A root with a `deps.edn` is always prepared with `clojure -P`, whether or
/// not it also holds a `bb.edn`; the activated aliases, when there are any,
/// follow as one `-A:` argument. `bb prepare` is chosen only for a root with
/// a `bb.edn` and no `deps.edn`, and a root with neither gets no command.
pub proof fn law_install_prefers_deps_edn(has_bb_edn: bool, aliases: Seq<Seq<char>>)
    ensures
        install_spec(true, has_bb_edn, aliases) == install_spec(true, !has_bb_edn, aliases),
        install_spec(true, has_bb_edn, aliases) matches Some((cmd, args)) && cmd == "clojure"@ && args.len() == (
        if aliases.len() > 0 {
            2int
        } else {
            1int
        }) && args[0] == "-P"@ && (aliases.len() > 0 ==> args[1].take(3) == "-A:"@),
        install_spec(false, true, aliases) == Some(("bb"@, seq!["prepare"@])),
        install_spec(false, false, aliases) is None,
{
    reveal_strlit("-A:");
    let a = "-A:"@ + join_sep(aliases, ':');
    assert(a.take(3) =~= "-A:"@);
}

// ---------------------------------------------------------------------------
// Implicit project relationships.

/// How a project depends on another.
#[derive(Clone, Copy, Debug, PartialEq, Eq)]
pub enum DependencyScope {
    Production,
    Development,
}

/// An implicit dependency of one project on another.
#[derive(Clone, Debug, PartialEq)]
pub struct ProjectDependency {
    pub id: String,
    pub scope: DependencyScope,
    /// `<manifest name> <lib>`: where the relationship comes from.
    pub via: String,
}

/// The characters of a [`ProjectDependency`].
pub open spec fn dep_view(d: ProjectDependency) -> (Seq<char>, DependencyScope, Seq<char>) {
    (d.id@, d.scope, d.via@)
}

/// The normalized source dir of a project: its source resolved against
/// `.`, or `.` when that fails.
pub open spec fn source_key(source: Seq<char>) -> Seq<char> {
    match rel_source(source, dot()) {
        Some(k) => k,
        None => dot(),
    }
}

/// Normalized source dir -> project id, for projects given as `(id, source)`
/// in order; a later project with the same source dir wins.
pub open spec fn index_fold(acc: Seq<(Seq<char>, Seq<char>)>, projects: Seq<(Seq<char>, Seq<char>)>) -> Seq<
    (Seq<char>, Seq<char>),
>
    decreases projects.len(),
{
    if projects.len() == 0 {
        acc
    } else {
        let p = projects.last();
        assoc_insert(index_fold(acc, projects.drop_last()), source_key(p.1), p.0)
    }
}

/// The characters of an `(id, source)` pair.
pub open spec fn pair_view(p: (String, String)) -> (Seq<char>, Seq<char>) {
    (p.0@, p.1@)
}

/// Maps each project's normalized source dir to its id.
pub fn source_index(project_sources: &Vec<(String, String)>) -> (r: SortedMap<String>)
    ensures
        r@ == index_fold(Seq::empty(), project_sources@.map_values(|p: (String, String)| pair_view(p))),
{
    let ghost ps = project_sources@.map_values(|p: (String, String)| pair_view(p));
    let mut by_source: SortedMap<String> = SortedMap::new();
    let mut i: usize = 0;
    while i < project_sources.len()
        invariant
            i <= project_sources.len(),
            ps == project_sources@.map_values(|p: (String, String)| pair_view(p)),
            by_source@ == index_fold(Seq::empty(), ps.take(i as int)),
        decreases project_sources.len() - i,
    {
        assert(ps.take(i + 1).drop_last() =~= ps.take(i as int));
        assert(ps.take(i + 1).last() == ps[i as int]);
        let (id, source) = (&project_sources[i].0, &project_sources[i].1);
        let key = match normalize_rel_source(source.as_str(), ".") {
            Some(k) => k,
            None => ".".to_owned(),
        };
        proof {
            reveal_strlit(".");
            assert("."@ =~= dot());
        }
        by_source.insert(key, id.clone());
        i = i + 1;
    }
    assert(ps.take(project_sources.len() as int) =~= ps);
    by_source
}

/// One manifest of a project, as read.
#[derive(Clone, Debug, PartialEq)]
pub struct ManifestFile {
    /// The file name: `deps.edn` or `bb.edn`.
    pub name: String,
    /// Where the file is, for error messages.
    pub path: String,
    /// The file's text.
    pub content: String,
}

/// Whether some dependency in `acc` is on project `id`.
pub open spec fn has_dep_on(acc: Seq<(Seq<char>, DependencyScope, Seq<char>)>, id: Seq<char>) -> bool {
    exists|i: int| 0 <= i < acc.len() && (#[trigger] acc[i]).0 == id
}

/// `acc` with the relationship that one local dep implies: the dep's
/// project, when the dep resolves inside the workspace to a known project
/// other than this one that is not yet a dependency.
pub open spec fn link_step(
    acc: Seq<(Seq<char>, DependencyScope, Seq<char>)>,
    id: Seq<char>,
    source: Seq<char>,
    name: Seq<char>,
    by_source: Seq<(Seq<char>, Seq<char>)>,
    dep: (Seq<char>, Seq<char>, bool),
) -> Seq<(Seq<char>, DependencyScope, Seq<char>)> {
    match rel_source(source, dep.1) {
        None => acc,
        Some(ds) => match assoc_get(by_source, ds) {
            None => acc,
            Some(dep_id) => if dep_id == id || has_dep_on(acc, dep_id) {
                acc
            } else {
                acc.push(
                    (
                        dep_id,
                        if dep.2 {
                            DependencyScope::Development
                        } else {
                            DependencyScope::Production
                        },
                        name + " "@ + dep.0,
                    ),
                )
            },
        },
    }
}

/// The relationships that a manifest's local deps imply, in order.
pub open spec fn link_fold(
    acc: Seq<(Seq<char>, DependencyScope, Seq<char>)>,
    id: Seq<char>,
    source: Seq<char>,
    name: Seq<char>,
    by_source: Seq<(Seq<char>, Seq<char>)>,
    deps: Seq<(Seq<char>, Seq<char>, bool)>,
) -> Seq<(Seq<char>, DependencyScope, Seq<char>)>
    decreases deps.len(),
{
    if deps.len() == 0 {
        acc
    } else {
        link_step(link_fold(acc, id, source, name, by_source, deps.drop_last()), id, source, name, by_source, deps.last())
    }
}

/// The characters of a manifest file: name, path, text.
pub open spec fn file_view(f: ManifestFile) -> (Seq<char>, Seq<char>, Seq<char>) {
    (f.name@, f.path@, f.content@)
}

/// The relationships that a project's manifests imply, manifest by
/// manifest; the first manifest that is not EDN is reported with its path
/// and the reader's account.
pub open spec fn project_links(
    acc: Seq<(Seq<char>, DependencyScope, Seq<char>)>,
    id: Seq<char>,
    source: Seq<char>,
    include_alias_deps: bool,
    by_source: Seq<(Seq<char>, Seq<char>)>,
    files: Seq<(Seq<char>, Seq<char>, Seq<char>)>,
) -> Result<Seq<(Seq<char>, DependencyScope, Seq<char>)>, (Seq<char>, Seq<char>)>
    decreases files.len(),
{
    if files.len() == 0 {
        Ok(acc)
    } else {
        let f = files[0];
        match parse_result(f.2) {
            Err(m) => Err((f.1, m)),
            Ok(doc) => project_links(
                link_fold(acc, id, source, f.0, by_source, spec_local_deps(doc, include_alias_deps)),
                id,
                source,
                include_alias_deps,
                by_source,
                files.drop_first(),
            ),
        }
    }
}

fn has_dep(deps: &Vec<ProjectDependency>, id: &str) -> (r: bool)
    ensures
        r == has_dep_on(deps@.map_values(|d: ProjectDependency| dep_view(d)), id@),
{
    let ghost dv = deps@.map_values(|d: ProjectDependency| dep_view(d));
    let mut i: usize = 0;
    while i < deps.len()
        invariant
            i <= deps.len(),
            dv == deps@.map_values(|d: ProjectDependency| dep_view(d)),
            forall|j: int| 0 <= j < i ==> dv[j].0 != id@,
        decreases deps.len() - i,
    {
        if str_eq(deps[i].id.as_str(), id) {
            assert(dv[i as int].0 == id@);
            return true;
        }
        i = i + 1;
    }
    false
}

/// Turn one project's `:local/root` coordinates into implicit moon project
/// relationships: each local dep that resolves inside the workspace to
/// another known project becomes a dependency on it (development-scoped
/// when it comes from an alias), once.
pub fn project_dependencies(
    id: &str,
    source: &str,
    include_alias_deps: bool,
    by_source: &SortedMap<String>,
    files: &Vec<ManifestFile>,
) -> (r: Result<Vec<ProjectDependency>, ClosureError>)
    ensures
        match project_links(
            Seq::empty(),
            id@,
            source@,
            include_alias_deps,
            by_source@,
            files@.map_values(|f: ManifestFile| file_view(f)),
        ) {
            Ok(deps) => r matches Ok(v) && v@.map_values(|d: ProjectDependency| dep_view(d)) == deps,
            Err((path, m)) => r matches Err(ClosureError::InvalidManifest { path: p, error: DepsEdnError::InvalidEdn(e) })
                && p@ == path && e@ == m,
        },
{
    let ghost fv = files@.map_values(|f: ManifestFile| file_view(f));
    let mut out: Vec<ProjectDependency> = Vec::new();
    let mut k: usize = 0;
    assert(fv.skip(0) =~= fv);
    assert(out@.map_values(|d: ProjectDependency| dep_view(d)) =~= Seq::<(Seq<char>, DependencyScope, Seq<char>)>::empty());
    while k < files.len()
        invariant
            k <= files.len(),
            fv == files@.map_values(|f: ManifestFile| file_view(f)),
            project_links(Seq::empty(), id@, source@, include_alias_deps, by_source@, fv) == project_links(
                out@.map_values(|d: ProjectDependency| dep_view(d)),
                id@,
                source@,
                include_alias_deps,
                by_source@,
                fv.skip(k as int),
            ),
        decreases files.len() - k,
    {
        assert(fv.skip(k as int).drop_first() =~= fv.skip(k + 1));
        assert(fv.skip(k as int)[0] == fv[k as int]);
        let file = &files[k];
        let manifest = match DepsEdn::parse(file.content.as_str()) {
            Ok(m) => m,
            Err(e) => {
                return Err(ClosureError::InvalidManifest { path: file.path.clone(), error: e });
            },
        };
        let deps = manifest.local_deps(include_alias_deps);
        let ghost dv = deps@.map_values(|t: (&str, &str, bool)| crate::deps_edn::triple_view(t));
        let ghost o0 = out@.map_values(|d: ProjectDependency| dep_view(d));
        let mut i: usize = 0;
        while i < deps.len()
            invariant
                i <= deps.len(),
                dv == deps@.map_values(|t: (&str, &str, bool)| crate::deps_edn::triple_view(t)),
                out@.map_values(|d: ProjectDependency| dep_view(d)) == link_fold(
                    o0,
                    id@,
                    source@,
                    file.name@,
                    by_source@,
                    dv.take(i as int),
                ),
            decreases deps.len() - i,
        {
            assert(dv.take(i + 1).drop_last() =~= dv.take(i as int));
            assert(dv.take(i + 1).last() == dv[i as int]);
            let (lib, local_root, from_alias) = deps[i];
            assert(dv[i as int] == (lib@, local_root@, from_alias));
            let ghost acc = out@.map_values(|d: ProjectDependency| dep_view(d));
            assert(link_fold(o0, id@, source@, file.name@, by_source@, dv.take(i + 1)) == link_step(
                acc,
                id@,
                source@,
                file.name@,
                by_source@,
                dv[i as int],
            ));
            if let Some(dep_source) = normalize_rel_source(source, local_root) {
                if let Some(dep_id) = by_source.get(dep_source.as_str()) {
                    if !str_eq(dep_id.as_str(), id) && !has_dep(&out, dep_id.as_str()) {
                        let mut via = file.name.clone();
                        push_char(&mut via, ' ');
                        via.append(lib);
                        proof {
                            reveal_strlit(" ");
                            assert(" "@ =~= seq![' ']);
                        }
                        let ghost before = out@.map_values(|d: ProjectDependency| dep_view(d));
                        let dep = ProjectDependency {
                            id: dep_id.clone(),
                            scope: if from_alias {
                                DependencyScope::Development
                            } else {
                                DependencyScope::Production
                            },
                            via,
                        };
                        assert(dep_view(dep).2 =~= file.name@ + " "@ + lib@);
                        out.push(dep);
                        assert(out@.map_values(|d: ProjectDependency| dep_view(d)) =~= before.push(dep_view(dep)));
                    } else {
                        assert(out@.map_values(|d: ProjectDependency| dep_view(d)) == link_step(acc, id@, source@, file.name@, by_source@, dv[i as int]));
                    }
                } else {
                    assert(out@.map_values(|d: ProjectDependency| dep_view(d)) == link_step(acc, id@, source@, file.name@, by_source@, dv[i as int]));
                }
            } else {
                assert(out@.map_values(|d: ProjectDependency| dep_view(d)) == link_step(acc, id@, source@, file.name@, by_source@, dv[i as int]));
            }
            i = i + 1;
        }
        assert(dv.take(deps.len() as int) =~= dv);
        k = k + 1;
    }
    assert(fv.skip(files.len() as int) =~= Seq::<(Seq<char>, Seq<char>, Seq<char>)>::empty());
    Ok(out)
}

/// A project as the graph extension reads it: its id, its source dir, and
/// the manifests found there.
#[derive(Clone, Debug, PartialEq)]
pub struct ProjectManifests {
    pub id: String,
    pub source: String,
    pub files: Vec<ManifestFile>,
}

/// The characters of a [`ProjectManifests`].
pub open spec fn project_view(p: ProjectManifests) -> (Seq<char>, Seq<char>, Seq<(Seq<char>, Seq<char>, Seq<char>)>) {
    (p.id@, p.source@, p.files@.map_values(|f: ManifestFile| file_view(f)))
}

/// The characters of a project's relationships.
pub open spec fn extended_view(e: (String, Vec<ProjectDependency>)) -> (
    Seq<char>,
    Seq<(Seq<char>, DependencyScope, Seq<char>)>,
) {
    (e.0@, e.1@.map_values(|d: ProjectDependency| dep_view(d)))
}

/// The projects that gain relationships, in order, each with its
/// relationships; projects without any are left out. The first manifest
/// that is not EDN is reported.
pub open spec fn graph_fold(
    include_alias_deps: bool,
    by_source: Seq<(Seq<char>, Seq<char>)>,
    projects: Seq<(Seq<char>, Seq<char>, Seq<(Seq<char>, Seq<char>, Seq<char>)>)>,
) -> Result<Seq<(Seq<char>, Seq<(Seq<char>, DependencyScope, Seq<char>)>)>, (Seq<char>, Seq<char>)>
    decreases projects.len(),
{
    if projects.len() == 0 {
        Ok(Seq::empty())
    } else {
        match graph_fold(include_alias_deps, by_source, projects.drop_last()) {
            Err(e) => Err(e),
            Ok(out) => {
                let p = projects.last();
                match project_links(Seq::empty(), p.0, p.1, include_alias_deps, by_source, p.2) {
                    Err(e) => Err(e),
                    Ok(deps) => Ok(
                        if deps.len() > 0 {
                            out.push((p.0, deps))
                        } else {
                            out
                        },
                    ),
                }
            },
        }
    }
}

/// A project's id and source dir.
pub open spec fn id_source(p: (Seq<char>, Seq<char>, Seq<(Seq<char>, Seq<char>, Seq<char>)>)) -> (Seq<char>, Seq<char>) {
    (p.0, p.1)
}

/// What the project graph gains from the manifests: nothing when
/// relationships are not inferred; otherwise, with projects indexed by
/// their normalized source dirs, each project's implicit relationships.
pub open spec fn project_graph_spec(
    infer_relationships: bool,
    include_alias_deps: bool,
    projects: Seq<(Seq<char>, Seq<char>, Seq<(Seq<char>, Seq<char>, Seq<char>)>)>,
) -> Result<Seq<(Seq<char>, Seq<(Seq<char>, DependencyScope, Seq<char>)>)>, (Seq<char>, Seq<char>)> {
    if !infer_relationships {
        Ok(Seq::empty())
    } else {
        graph_fold(
            include_alias_deps,
            index_fold(Seq::empty(), projects.map_values(|p: (Seq<char>, Seq<char>, Seq<(Seq<char>, Seq<char>, Seq<char>)>)| id_source(p))),
            projects,
        )
    }
}

/// Turn `:local/root` coordinates into implicit moon project relationships,
/// so that task deps, affected detection and CI understand the Clojure
/// dependency graph without manual `dependsOn`. Only projects that gain a
/// relationship appear.
pub fn extend_project_graph(
    infer_relationships: bool,
    include_alias_deps: bool,
    projects: &Vec<ProjectManifests>,
) -> (r: Result<Vec<(String, Vec<ProjectDependency>)>, ClosureError>)
    ensures
        match project_graph_spec(
            infer_relationships,
            include_alias_deps,
            projects@.map_values(|p: ProjectManifests| project_view(p)),
        ) {
            Ok(out) => r matches Ok(v) && v@.map_values(|e: (String, Vec<ProjectDependency>)| extended_view(e))
                == out,
            Err((path, m)) => r matches Err(ClosureError::InvalidManifest { path: p, error: DepsEdnError::InvalidEdn(e) })
                && p@ == path && e@ == m,
        },
{
    let ghost pv = projects@.map_values(|p: ProjectManifests| project_view(p));
    let mut out: Vec<(String, Vec<ProjectDependency>)> = Vec::new();
    if !infer_relationships {
        assert(out@.map_values(|e: (String, Vec<ProjectDependency>)| extended_view(e)) =~= Seq::<
            (Seq<char>, Seq<(Seq<char>, DependencyScope, Seq<char>)>),
        >::empty());
        return Ok(out);
    }
    let mut sources: Vec<(String, String)> = Vec::new();
    let ghost ids = pv.map_values(|p: (Seq<char>, Seq<char>, Seq<(Seq<char>, Seq<char>, Seq<char>)>)| id_source(p));
    let mut j: usize = 0;
    while j < projects.len()
        invariant
            j <= projects.len(),
            pv == projects@.map_values(|p: ProjectManifests| project_view(p)),
            ids == pv.map_values(|p: (Seq<char>, Seq<char>, Seq<(Seq<char>, Seq<char>, Seq<char>)>)| id_source(p)),
            sources@.map_values(|q: (String, String)| pair_view(q)) == ids.take(j as int),
        decreases projects.len() - j,
    {
        let ghost before = sources@.map_values(|q: (String, String)| pair_view(q));
        assert(pv[j as int] == project_view(projects@[j as int]));
        let pair = (projects[j].id.clone(), projects[j].source.clone());
        assert(pair_view(pair) == ids[j as int]);
        sources.push(pair);
        assert(sources@.map_values(|q: (String, String)| pair_view(q)) =~= before.push(pair_view(pair)));
        assert(ids.take(j + 1) =~= ids.take(j as int).push(ids[j as int]));
        j = j + 1;
    }
    assert(ids.take(projects.len() as int) =~= ids);
    let by_source = source_index(&sources);
    let ghost bs = by_source@;
    assert(out@.map_values(|e: (String, Vec<ProjectDependency>)| extended_view(e)) =~= Seq::<
        (Seq<char>, Seq<(Seq<char>, DependencyScope, Seq<char>)>),
    >::empty());
    assert(pv.take(0) =~= Seq::<(Seq<char>, Seq<char>, Seq<(Seq<char>, Seq<char>, Seq<char>)>)>::empty());
    let mut k: usize = 0;
    while k < projects.len()
        invariant
            k <= projects.len(),
            pv == projects@.map_values(|p: ProjectManifests| project_view(p)),
            infer_relationships,
            bs == by_source@,
            bs == index_fold(Seq::empty(), ids),
            ids == pv.map_values(|p: (Seq<char>, Seq<char>, Seq<(Seq<char>, Seq<char>, Seq<char>)>)| id_source(p)),
            graph_fold(include_alias_deps, bs, pv.take(k as int)) == Ok::<
                Seq<(Seq<char>, Seq<(Seq<char>, DependencyScope, Seq<char>)>)>,
                (Seq<char>, Seq<char>),
            >(out@.map_values(|e: (String, Vec<ProjectDependency>)| extended_view(e))),
        decreases projects.len() - k,
    {
        assert(pv.take(k + 1).drop_last() =~= pv.take(k as int));
        assert(pv.take(k + 1).last() == pv[k as int]);
        let project = &projects[k];
        assert(pv[k as int] == project_view(*project));
        let deps = project_dependencies(
            project.id.as_str(),
            project.source.as_str(),
            include_alias_deps,
            &by_source,
            &project.files,
        );
        match deps {
            Err(e) => {
                proof {
                    assert(pv[k as int] == project_view(projects@[k as int]));
                    lemma_graph_fold_err(include_alias_deps, bs, pv, k as int);
                }
                return Err(e);
            },
            Ok(deps) => {
                if deps.len() > 0 {
                    let ghost before = out@.map_values(|e: (String, Vec<ProjectDependency>)| extended_view(e));
                    let entry = (project.id.clone(), deps);
                    out.push(entry);
                    assert(out@.map_values(|e: (String, Vec<ProjectDependency>)| extended_view(e)) =~= before.push(
                        extended_view(entry),
                    ));
                }
            },
        }
        k = k + 1;
    }
    assert(pv.take(projects.len() as int) =~= pv);
    Ok(out)
}

/// Once a project's manifests fail, the whole fold fails the same way.
proof fn lemma_graph_fold_err(
    include_alias_deps: bool,
    by_source: Seq<(Seq<char>, Seq<char>)>,
    projects: Seq<(Seq<char>, Seq<char>, Seq<(Seq<char>, Seq<char>, Seq<char>)>)>,
    k: int,
)
    requires
        0 <= k < projects.len(),
        graph_fold(include_alias_deps, by_source, projects.take(k)) is Ok,
        project_links(
            Seq::empty(),
            projects[k].0,
            projects[k].1,
            include_alias_deps,
            by_source,
            projects[k].2,
        ) is Err,
    ensures
        match project_links(
            Seq::empty(),
            projects[k].0,
            projects[k].1,
            include_alias_deps,
            by_source,
            projects[k].2,
        ) {
            Err(e) => graph_fold(include_alias_deps, by_source, projects) == Err::<
                Seq<(Seq<char>, Seq<(Seq<char>, DependencyScope, Seq<char>)>)>,
                (Seq<char>, Seq<char>),
            >(e),
            Ok(_) => true,
        },
{
    assert(projects.take(k + 1).drop_last() =~= projects.take(k));
    assert(projects.take(k + 1).last() == projects[k]);
    lemma_graph_fold_err_from(include_alias_deps, by_source, projects, k + 1);
}

/// A failed prefix makes every longer prefix fail the same way.
proof fn lemma_graph_fold_err_from(
    include_alias_deps: bool,
    by_source: Seq<(Seq<char>, Seq<char>)>,
    projects: Seq<(Seq<char>, Seq<char>, Seq<(Seq<char>, Seq<char>, Seq<char>)>)>,
    n: int,
)
    requires
        0 <= n <= projects.len(),
        graph_fold(include_alias_deps, by_source, projects.take(n)) is Err,
    ensures
        graph_fold(include_alias_deps, by_source, projects) == graph_fold(include_alias_deps, by_source, projects.take(n)),
    decreases projects.len() - n,
{
    if n == projects.len() {
        assert(projects.take(n) =~= projects);
    } else {
        assert(projects.take(n + 1).drop_last() =~= projects.take(n));
        lemma_graph_fold_err_from(include_alias_deps, by_source, projects, n + 1);
    }
}

/// The project that a local dep `d` of a project with source dir `source`
/// leads to: the project whose source dir the dep resolves to, if any.
pub open spec fn dep_target(
    source: Seq<char>,
    by_source: Seq<(Seq<char>, Seq<char>)>,
    d: (Seq<char>, Seq<char>, bool),
) -> Option<Seq<char>> {
    match rel_source(source, d.1) {
        Some(ds) => assoc_get(by_source, ds),
        None => None,
    }
}

proof fn lemma_link_step_keeps(
    acc: Seq<(Seq<char>, DependencyScope, Seq<char>)>,
    id: Seq<char>,
    source: Seq<char>,
    name: Seq<char>,
    by_source: Seq<(Seq<char>, Seq<char>)>,
    d: (Seq<char>, Seq<char>, bool),
)
    ensures
        forall|t: Seq<char>| has_dep_on(acc, t) ==> #[trigger] has_dep_on(link_step(acc, id, source, name, by_source, d), t),
        dep_target(source, by_source, d) matches Some(t) ==> (t != id ==> has_dep_on(
            link_step(acc, id, source, name, by_source, d),
            t,
        )),
{
    let r = link_step(acc, id, source, name, by_source, d);
    assert forall|t: Seq<char>| has_dep_on(acc, t) implies #[trigger] has_dep_on(r, t) by {
        let i = choose|i: int| 0 <= i < acc.len() && (#[trigger] acc[i]).0 == t;
        if r != acc {
            assert(r[i] == acc[i]);
        }
    }
    if let Some(t) = dep_target(source, by_source, d) {
        if t != id && !has_dep_on(acc, t) {
            assert(r[acc.len() as int].0 == t);
        }
    }
}

proof fn lemma_link_fold_covers(
    acc: Seq<(Seq<char>, DependencyScope, Seq<char>)>,
    id: Seq<char>,
    source: Seq<char>,
    name: Seq<char>,
    by_source: Seq<(Seq<char>, Seq<char>)>,
    deps: Seq<(Seq<char>, Seq<char>, bool)>,
)
    ensures
        forall|t: Seq<char>| has_dep_on(acc, t) ==> #[trigger] has_dep_on(link_fold(acc, id, source, name, by_source, deps), t),
        forall|j: int|
            0 <= j < deps.len() && dep_target(source, by_source, #[trigger] deps[j]) is Some && dep_target(
                source,
                by_source,
                deps[j],
            )->0 != id ==> has_dep_on(link_fold(acc, id, source, name, by_source, deps), dep_target(source, by_source, deps[j])->0),
    decreases deps.len(),
{
    if deps.len() > 0 {
        let init = deps.drop_last();
        lemma_link_fold_covers(acc, id, source, name, by_source, init);
        let a = link_fold(acc, id, source, name, by_source, init);
        lemma_link_step_keeps(a, id, source, name, by_source, deps.last());
        assert forall|j: int|
            0 <= j < deps.len() && dep_target(source, by_source, #[trigger] deps[j]) is Some && dep_target(
                source,
                by_source,
                deps[j],
            )->0 != id implies has_dep_on(link_fold(acc, id, source, name, by_source, deps), dep_target(source, by_source, deps[j])->0) by {
            if j < deps.len() - 1 {
                assert(init[j] == deps[j]);
            } else {
                assert(deps[j] == deps.last());
            }
        }
    }
}

proof fn lemma_project_links_keeps(
    acc: Seq<(Seq<char>, DependencyScope, Seq<char>)>,
    id: Seq<char>,
    source: Seq<char>,
    include_alias_deps: bool,
    by_source: Seq<(Seq<char>, Seq<char>)>,
    files: Seq<(Seq<char>, Seq<char>, Seq<char>)>,
)
    ensures
        project_links(acc, id, source, include_alias_deps, by_source, files) matches Ok(deps) ==> forall|t: Seq<char>|
            has_dep_on(acc, t) ==> #[trigger] has_dep_on(deps, t),
    decreases files.len(),
{
    if files.len() > 0 {
        let f = files[0];
        if let Ok(doc) = parse_result(f.2) {
            let ds = spec_local_deps(doc, include_alias_deps);
            lemma_link_fold_covers(acc, id, source, f.0, by_source, ds);
            lemma_project_links_keeps(
                link_fold(acc, id, source, f.0, by_source, ds),
                id,
                source,
                include_alias_deps,
                by_source,
                files.drop_first(),
            );
        }
    }
}

/// Every manifest of a project, whatever its name (`deps.edn` or
/// `bb.edn`), contributes its local deps: when the relationships come out,
/// every manifest parsed, and each local dep of each manifest that resolves
/// to another known project yields a relationship on that project.
pub proof fn law_project_links_cover(
    acc: Seq<(Seq<char>, DependencyScope, Seq<char>)>,
    id: Seq<char>,
    source: Seq<char>,
    include_alias_deps: bool,
    by_source: Seq<(Seq<char>, Seq<char>)>,
    files: Seq<(Seq<char>, Seq<char>, Seq<char>)>,
)
    ensures
        project_links(acc, id, source, include_alias_deps, by_source, files) matches Ok(deps) ==> {
            &&& forall|i: int| 0 <= i < files.len() ==> parse_result(#[trigger] files[i].2) is Ok
            &&& forall|i: int, j: int|
                0 <= i < files.len() && 0 <= j < spec_local_deps(parse_result(#[trigger] files[i].2)->Ok_0, include_alias_deps).len()
                    && dep_target(
                    source,
                    by_source,
                    #[trigger] spec_local_deps(parse_result(files[i].2)->Ok_0, include_alias_deps)[j],
                ) is Some && dep_target(
                    source,
                    by_source,
                    spec_local_deps(parse_result(files[i].2)->Ok_0, include_alias_deps)[j],
                )->0 != id ==> has_dep_on(
                    deps,
                    dep_target(source, by_source, spec_local_deps(parse_result(files[i].2)->Ok_0, include_alias_deps)[j])->0,
                )
        },
    decreases files.len(),
{
    if files.len() > 0 {
        let f = files[0];
        if let Ok(doc) = parse_result(f.2) {
            let ds = spec_local_deps(doc, include_alias_deps);
            let a = link_fold(acc, id, source, f.0, by_source, ds);
            let rest = files.drop_first();
            lemma_link_fold_covers(acc, id, source, f.0, by_source, ds);
            lemma_project_links_keeps(a, id, source, include_alias_deps, by_source, rest);
            law_project_links_cover(a, id, source, include_alias_deps, by_source, rest);
            if let Ok(deps) = project_links(acc, id, source, include_alias_deps, by_source, files) {
                assert(project_links(a, id, source, include_alias_deps, by_source, rest) == Ok::<
                    Seq<(Seq<char>, DependencyScope, Seq<char>)>,
                    (Seq<char>, Seq<char>),
                >(deps));
                assert forall|i: int| 0 <= i < files.len() implies parse_result(#[trigger] files[i].2) is Ok by {
                    if i > 0 {
                        assert(files[i] == rest[i - 1]);
                    }
                }
                assert forall|i: int, j: int|
                    0 <= i < files.len() && 0 <= j < spec_local_deps(parse_result(#[trigger] files[i].2)->Ok_0, include_alias_deps).len()
                        && dep_target(
                        source,
                        by_source,
                        #[trigger] spec_local_deps(parse_result(files[i].2)->Ok_0, include_alias_deps)[j],
                    ) is Some && dep_target(
                        source,
                        by_source,
                        spec_local_deps(parse_result(files[i].2)->Ok_0, include_alias_deps)[j],
                    )->0 != id implies has_dep_on(
                        deps,
                        dep_target(source, by_source, spec_local_deps(parse_result(files[i].2)->Ok_0, include_alias_deps)[j])->0,
                    ) by {
                    if i == 0 {
                        assert(ds[j] == spec_local_deps(parse_result(files[i].2)->Ok_0, include_alias_deps)[j]);
                    } else {
                        assert(files[i] == rest[i - 1]);
                    }
                }
            }
        }
    }
}

/// The scope of a relationship from a local dep: development for an
/// alias-scoped dep, production for a top-level one.
pub open spec fn scope_of(from_alias: bool) -> DependencyScope {
    if from_alias {
        DependencyScope::Development
    } else {
        DependencyScope::Production
    }
}

/// Whether relationship `r` is the one that local dep `d` of the manifest
/// named `name` implies: on the project the dep leads to, scoped by where
/// the dep was declared, and attributed to `<name> <lib>`.
pub open spec fn from_dep(
    r: (Seq<char>, DependencyScope, Seq<char>),
    name: Seq<char>,
    d: (Seq<char>, Seq<char>, bool),
    source: Seq<char>,
    by_source: Seq<(Seq<char>, Seq<char>)>,
) -> bool {
    &&& dep_target(source, by_source, d) == Some(r.0)
    &&& r.1 == scope_of(d.2)
    &&& r.2 == name + " "@ + d.0
}

/// Whether relationship `r` comes from some local dep of some parsed
/// manifest among `files`.
pub open spec fn entry_from(
    r: (Seq<char>, DependencyScope, Seq<char>),
    files: Seq<(Seq<char>, Seq<char>, Seq<char>)>,
    include_alias_deps: bool,
    source: Seq<char>,
    by_source: Seq<(Seq<char>, Seq<char>)>,
) -> bool {
    exists|i: int, j: int|
        0 <= i < files.len() && parse_result(files[i].2) is Ok && 0 <= j < spec_local_deps(
            parse_result(files[i].2)->Ok_0,
            include_alias_deps,
        ).len() && #[trigger] from_dep(
            r,
            files[i].0,
            spec_local_deps(parse_result(files[i].2)->Ok_0, include_alias_deps)[j],
            source,
            by_source,
        )
}

/// Every relationship in `acc` comes from some local dep of some parsed
/// manifest among `files`.
pub open spec fn provenance(
    acc: Seq<(Seq<char>, DependencyScope, Seq<char>)>,
    files: Seq<(Seq<char>, Seq<char>, Seq<char>)>,
    include_alias_deps: bool,
    source: Seq<char>,
    by_source: Seq<(Seq<char>, Seq<char>)>,
) -> bool {
    forall|k: int| 0 <= k < acc.len() ==> entry_from(#[trigger] acc[k], files, include_alias_deps, source, by_source)
}

proof fn lemma_link_fold_provenance(
    acc: Seq<(Seq<char>, DependencyScope, Seq<char>)>,
    id: Seq<char>,
    source: Seq<char>,
    include_alias_deps: bool,
    by_source: Seq<(Seq<char>, Seq<char>)>,
    files: Seq<(Seq<char>, Seq<char>, Seq<char>)>,
    i: int,
    n: int,
)
    requires
        0 <= i < files.len(),
        parse_result(files[i].2) is Ok,
        0 <= n <= spec_local_deps(parse_result(files[i].2)->Ok_0, include_alias_deps).len(),
        provenance(acc, files, include_alias_deps, source, by_source),
    ensures
        provenance(
            link_fold(
                acc,
                id,
                source,
                files[i].0,
                by_source,
                spec_local_deps(parse_result(files[i].2)->Ok_0, include_alias_deps).take(n),
            ),
            files,
            include_alias_deps,
            source,
            by_source,
        ),
    decreases n,
{
    let ds = spec_local_deps(parse_result(files[i].2)->Ok_0, include_alias_deps);
    let name = files[i].0;
    if n == 0 {
        assert(ds.take(0) =~= Seq::<(Seq<char>, Seq<char>, bool)>::empty());
        assert(link_fold(acc, id, source, name, by_source, ds.take(0)) == acc);
    } else {
        lemma_link_fold_provenance(acc, id, source, include_alias_deps, by_source, files, i, n - 1);
        assert(ds.take(n).drop_last() =~= ds.take(n - 1));
        assert(ds.take(n).last() == ds[n - 1]);
        let a = link_fold(acc, id, source, name, by_source, ds.take(n - 1));
        let r = link_fold(acc, id, source, name, by_source, ds.take(n));
        assert(r == link_step(a, id, source, name, by_source, ds[n - 1]));
        assert forall|k: int| 0 <= k < r.len() implies entry_from(#[trigger] r[k], files, include_alias_deps, source, by_source) by {
            if k < a.len() {
                assert(r[k] == a[k]);
            } else {
                assert(from_dep(r[k], name, ds[n - 1], source, by_source)) by {
                    reveal_strlit(" ");
                }
                assert(from_dep(
                    r[k],
                    files[i].0,
                    spec_local_deps(parse_result(files[i].2)->Ok_0, include_alias_deps)[n - 1],
                    source,
                    by_source,
                ));
            }
        }
        assert(provenance(r, files, include_alias_deps, source, by_source));
    }
}

proof fn lemma_project_links_provenance(
    acc: Seq<(Seq<char>, DependencyScope, Seq<char>)>,
    id: Seq<char>,
    source: Seq<char>,
    include_alias_deps: bool,
    by_source: Seq<(Seq<char>, Seq<char>)>,
    files: Seq<(Seq<char>, Seq<char>, Seq<char>)>,
    n: int,
)
    requires
        0 <= n <= files.len(),
        provenance(acc, files, include_alias_deps, source, by_source),
    ensures
        project_links(acc, id, source, include_alias_deps, by_source, files.skip(n)) matches Ok(deps) ==> provenance(
            deps,
            files,
            include_alias_deps,
            source,
            by_source,
        ),
    decreases files.len() - n,
{
    if n < files.len() {
        let f = files.skip(n)[0];
        assert(f == files[n]);
        assert(files.skip(n).drop_first() =~= files.skip(n + 1));
        if let Ok(doc) = parse_result(f.2) {
            let ds = spec_local_deps(doc, include_alias_deps);
            lemma_link_fold_provenance(acc, id, source, include_alias_deps, by_source, files, n, ds.len() as int);
            assert(ds.take(ds.len() as int) =~= ds);
            lemma_project_links_provenance(
                link_fold(acc, id, source, f.0, by_source, ds),
                id,
                source,
                include_alias_deps,
                by_source,
                files,
                n + 1,
            );
        }
    }
}

/// Every implicit relationship of a project comes from a local dep of one
/// of its manifests, whatever that manifest's name: it is on the project
/// the dep resolves to, it is development-scoped exactly when the dep is
/// alias-scoped, and it is attributed to `<manifest name> <lib>`.
pub proof fn law_project_links_provenance(
    id: Seq<char>,
    source: Seq<char>,
    include_alias_deps: bool,
    by_source: Seq<(Seq<char>, Seq<char>)>,
    files: Seq<(Seq<char>, Seq<char>, Seq<char>)>,
)
    ensures
        project_links(Seq::empty(), id, source, include_alias_deps, by_source, files) matches Ok(deps) ==> provenance(
            deps,
            files,
            include_alias_deps,
            source,
            by_source,
        ),
{
    assert(files.skip(0) =~= files);
    lemma_project_links_provenance(Seq::empty(), id, source, include_alias_deps, by_source, files, 0);
}

/// A relationship list with no dependency on project `id` and no project
/// listed twice.
pub open spec fn simple_links(acc: Seq<(Seq<char>, DependencyScope, Seq<char>)>, id: Seq<char>) -> bool {
    &&& forall|i: int| 0 <= i < acc.len() ==> (#[trigger] acc[i]).0 != id
    &&& forall|i: int, j: int| 0 <= i < j < acc.len() ==> (#[trigger] acc[i]).0 != (#[trigger] acc[j]).0
}

proof fn lemma_link_step_simple(
    acc: Seq<(Seq<char>, DependencyScope, Seq<char>)>,
    id: Seq<char>,
    source: Seq<char>,
    name: Seq<char>,
    by_source: Seq<(Seq<char>, Seq<char>)>,
    dep: (Seq<char>, Seq<char>, bool),
)
    requires
        simple_links(acc, id),
    ensures
        simple_links(link_step(acc, id, source, name, by_source, dep), id),
{
    if let Some(ds) = rel_source(source, dep.1) {
        if let Some(dep_id) = assoc_get(by_source, ds) {
            if !(dep_id == id || has_dep_on(acc, dep_id)) {
                let r = link_step(acc, id, source, name, by_source, dep);
                assert forall|i: int, j: int| 0 <= i < j < r.len() implies (#[trigger] r[i]).0 != (#[trigger] r[j]).0 by {
                    if j == acc.len() {
                        assert(acc[i].0 != dep_id);
                    }
                }
            }
        }
    }
}

proof fn lemma_link_fold_simple(
    acc: Seq<(Seq<char>, DependencyScope, Seq<char>)>,
    id: Seq<char>,
    source: Seq<char>,
    name: Seq<char>,
    by_source: Seq<(Seq<char>, Seq<char>)>,
    deps: Seq<(Seq<char>, Seq<char>, bool)>,
)
    requires
        simple_links(acc, id),
    ensures
        simple_links(link_fold(acc, id, source, name, by_source, deps), id),
    decreases deps.len(),
{
    if deps.len() > 0 {
        lemma_link_fold_simple(acc, id, source, name, by_source, deps.drop_last());
        lemma_link_step_simple(
            link_fold(acc, id, source, name, by_source, deps.drop_last()),
            id,
            source,
            name,
            by_source,
            deps.last(),
        );
    }
}

proof fn lemma_project_links_simple(
    acc: Seq<(Seq<char>, DependencyScope, Seq<char>)>,
    id: Seq<char>,
    source: Seq<char>,
    include_alias_deps: bool,
    by_source: Seq<(Seq<char>, Seq<char>)>,
    files: Seq<(Seq<char>, Seq<char>, Seq<char>)>,
)
    requires
        simple_links(acc, id),
    ensures
        project_links(acc, id, source, include_alias_deps, by_source, files) matches Ok(deps) ==> simple_links(
            deps,
            id,
        ),
    decreases files.len(),
{
    if files.len() > 0 {
        let f = files[0];
        if let Ok(doc) = parse_result(f.2) {
            let deps = spec_local_deps(doc, include_alias_deps);
            lemma_link_fold_simple(acc, id, source, f.0, by_source, deps);
            lemma_project_links_simple(
                link_fold(acc, id, source, f.0, by_source, deps),
                id,
                source,
                include_alias_deps,
                by_source,
                files.drop_first(),
            );
        }
    }
}

/// The implicit relationships of a project never include a dependency on
/// the project itself, and never name the same project twice.
pub proof fn law_project_links_simple(
    id: Seq<char>,
    source: Seq<char>,
    include_alias_deps: bool,
    by_source: Seq<(Seq<char>, Seq<char>)>,
    files: Seq<(Seq<char>, Seq<char>, Seq<char>)>,
)
    ensures
        project_links(Seq::empty(), id, source, include_alias_deps, by_source, files) matches Ok(deps)
            ==> simple_links(deps, id),
{
    lemma_project_links_simple(Seq::empty(), id, source, include_alias_deps, by_source, files);
}

proof fn lemma_graph_fold_simple(
    include_alias_deps: bool,
    by_source: Seq<(Seq<char>, Seq<char>)>,
    projects: Seq<(Seq<char>, Seq<char>, Seq<(Seq<char>, Seq<char>, Seq<char>)>)>,
)
    ensures
        graph_fold(include_alias_deps, by_source, projects) matches Ok(out) ==> forall|i: int|
            0 <= i < out.len() ==> (#[trigger] out[i]).1.len() > 0 && simple_links(out[i].1, out[i].0),
    decreases projects.len(),
{
    if projects.len() > 0 {
        lemma_graph_fold_simple(include_alias_deps, by_source, projects.drop_last());
        let p = projects.last();
        law_project_links_simple(p.0, p.1, include_alias_deps, by_source, p.2);
    }
}

/// In the extended project graph only projects that gain a relationship
/// appear, no project depends on itself, and none names the same project
/// twice.
pub proof fn law_project_graph_simple(
    infer_relationships: bool,
    include_alias_deps: bool,
    projects: Seq<(Seq<char>, Seq<char>, Seq<(Seq<char>, Seq<char>, Seq<char>)>)>,
)
    ensures
        project_graph_spec(infer_relationships, include_alias_deps, projects) matches Ok(out) ==> forall|i: int|
            0 <= i < out.len() ==> (#[trigger] out[i]).1.len() > 0 && simple_links(out[i].1, out[i].0),
{
    if infer_relationships {
        lemma_graph_fold_simple(
            include_alias_deps,
            index_fold(Seq::empty(), projects.map_values(|p: (Seq<char>, Seq<char>, Seq<(Seq<char>, Seq<char>, Seq<char>)>)| id_source(p))),
            projects,
        );
    }
}

/// Every value bound in `s` is among `ids`.
pub open spec fn values_among(s: Seq<(Seq<char>, Seq<char>)>, ids: Seq<Seq<char>>) -> bool {
    forall|i: int| 0 <= i < s.len() ==> ids.contains((#[trigger] s[i]).1)
}

/// Every relationship in `acc` is on a project among `ids`.
pub open spec fn links_among(acc: Seq<(Seq<char>, DependencyScope, Seq<char>)>, ids: Seq<Seq<char>>) -> bool {
    forall|i: int| 0 <= i < acc.len() ==> ids.contains((#[trigger] acc[i]).0)
}

proof fn lemma_assoc_insert_values(s: Seq<(Seq<char>, Seq<char>)>, k: Seq<char>, v: Seq<char>, ids: Seq<Seq<char>>)
    requires
        values_among(s, ids),
        ids.contains(v),
    ensures
        values_among(assoc_insert(s, k, v), ids),
{
    lemma_insert_index(keys_of(s), k, 0);
    let i = insert_index(keys_of(s), k, 0);
    let r = assoc_insert(s, k, v);
    assert forall|j: int| 0 <= j < r.len() implies ids.contains((#[trigger] r[j]).1) by {
        if i < s.len() && s[i].0 == k {
            if j != i {
                assert(r[j] == s[j]);
            }
        } else if j < i {
            assert(r[j] == s[j]);
        } else if j > i {
            assert(r[j] == s[j - 1]);
        }
    }
}

proof fn lemma_index_fold_values(
    acc: Seq<(Seq<char>, Seq<char>)>,
    projects: Seq<(Seq<char>, Seq<char>)>,
    ids: Seq<Seq<char>>,
)
    requires
        values_among(acc, ids),
        forall|i: int| 0 <= i < projects.len() ==> ids.contains((#[trigger] projects[i]).0),
    ensures
        values_among(index_fold(acc, projects), ids),
    decreases projects.len(),
{
    if projects.len() > 0 {
        let p = projects.last();
        assert(ids.contains(projects[projects.len() - 1].0));
        lemma_index_fold_values(acc, projects.drop_last(), ids);
        lemma_assoc_insert_values(index_fold(acc, projects.drop_last()), source_key(p.1), p.0, ids);
    }
}

proof fn lemma_assoc_get_among(s: Seq<(Seq<char>, Seq<char>)>, k: Seq<char>, ids: Seq<Seq<char>>)
    requires
        values_among(s, ids),
    ensures
        assoc_get(s, k) matches Some(v) ==> ids.contains(v),
    decreases s.len(),
{
    if s.len() > 0 && s[0].0 != k {
        assert(values_among(s.drop_first(), ids)) by {
            assert forall|i: int| 0 <= i < s.drop_first().len() implies ids.contains((#[trigger] s.drop_first()[i]).1) by {
                assert(s.drop_first()[i] == s[i + 1]);
            }
        }
        lemma_assoc_get_among(s.drop_first(), k, ids);
    }
}

proof fn lemma_link_fold_among(
    acc: Seq<(Seq<char>, DependencyScope, Seq<char>)>,
    id: Seq<char>,
    source: Seq<char>,
    name: Seq<char>,
    by_source: Seq<(Seq<char>, Seq<char>)>,
    deps: Seq<(Seq<char>, Seq<char>, bool)>,
    ids: Seq<Seq<char>>,
)
    requires
        links_among(acc, ids),
        values_among(by_source, ids),
    ensures
        links_among(link_fold(acc, id, source, name, by_source, deps), ids),
    decreases deps.len(),
{
    if deps.len() > 0 {
        lemma_link_fold_among(acc, id, source, name, by_source, deps.drop_last(), ids);
        let a = link_fold(acc, id, source, name, by_source, deps.drop_last());
        if let Some(ds) = rel_source(source, deps.last().1) {
            lemma_assoc_get_among(by_source, ds, ids);
            let r = link_step(a, id, source, name, by_source, deps.last());
            assert forall|i: int| 0 <= i < r.len() implies ids.contains((#[trigger] r[i]).0) by {
                if i < a.len() {
                    assert(r[i] == a[i]);
                }
            }
        }
    }
}

proof fn lemma_project_links_among(
    acc: Seq<(Seq<char>, DependencyScope, Seq<char>)>,
    id: Seq<char>,
    source: Seq<char>,
    include_alias_deps: bool,
    by_source: Seq<(Seq<char>, Seq<char>)>,
    files: Seq<(Seq<char>, Seq<char>, Seq<char>)>,
    ids: Seq<Seq<char>>,
)
    requires
        links_among(acc, ids),
        values_among(by_source, ids),
    ensures
        project_links(acc, id, source, include_alias_deps, by_source, files) matches Ok(deps) ==> links_among(
            deps,
            ids,
        ),
    decreases files.len(),
{
    if files.len() > 0 {
        let f = files[0];
        if let Ok(doc) = parse_result(f.2) {
            let deps = spec_local_deps(doc, include_alias_deps);
            lemma_link_fold_among(acc, id, source, f.0, by_source, deps, ids);
            lemma_project_links_among(
                link_fold(acc, id, source, f.0, by_source, deps),
                id,
                source,
                include_alias_deps,
                by_source,
                files.drop_first(),
                ids,
            );
        }
    }
}

proof fn lemma_graph_fold_among(
    include_alias_deps: bool,
    by_source: Seq<(Seq<char>, Seq<char>)>,
    projects: Seq<(Seq<char>, Seq<char>, Seq<(Seq<char>, Seq<char>, Seq<char>)>)>,
    ids: Seq<Seq<char>>,
)
    requires
        values_among(by_source, ids),
        forall|i: int| 0 <= i < projects.len() ==> ids.contains((#[trigger] projects[i]).0),
    ensures
        graph_fold(include_alias_deps, by_source, projects) matches Ok(out) ==> forall|i: int|
            0 <= i < out.len() ==> ids.contains((#[trigger] out[i]).0) && links_among(out[i].1, ids),
    decreases projects.len(),
{
    if projects.len() > 0 {
        assert forall|i: int| 0 <= i < projects.drop_last().len() implies ids.contains((#[trigger] projects.drop_last()[i]).0) by {
            assert(projects.drop_last()[i] == projects[i]);
        }
        lemma_graph_fold_among(include_alias_deps, by_source, projects.drop_last(), ids);
        let p = projects.last();
        assert(ids.contains(projects[projects.len() - 1].0));
        lemma_project_links_among(Seq::empty(), p.0, p.1, include_alias_deps, by_source, p.2, ids);
    }
}

/// In the extended project graph every project that gains relationships,
/// and every project it comes to depend on, is one of the known projects.
pub proof fn law_project_graph_known(
    infer_relationships: bool,
    include_alias_deps: bool,
    projects: Seq<(Seq<char>, Seq<char>, Seq<(Seq<char>, Seq<char>, Seq<char>)>)>,
)
    ensures
        project_graph_spec(infer_relationships, include_alias_deps, projects) matches Ok(out) ==> forall|i: int|
            0 <= i < out.len() ==> projects.map_values(
                |p: (Seq<char>, Seq<char>, Seq<(Seq<char>, Seq<char>, Seq<char>)>)| p.0,
            ).contains((#[trigger] out[i]).0) && links_among(
                out[i].1,
                projects.map_values(|p: (Seq<char>, Seq<char>, Seq<(Seq<char>, Seq<char>, Seq<char>)>)| p.0),
            ),
{
    if infer_relationships {
        let ids = projects.map_values(|p: (Seq<char>, Seq<char>, Seq<(Seq<char>, Seq<char>, Seq<char>)>)| p.0);
        let pairs = projects.map_values(|p: (Seq<char>, Seq<char>, Seq<(Seq<char>, Seq<char>, Seq<char>)>)| id_source(p));
        assert forall|i: int| 0 <= i < projects.len() implies ids.contains((#[trigger] projects[i]).0) by {
            assert(ids[i] == projects[i].0);
        }
        assert forall|i: int| 0 <= i < pairs.len() implies ids.contains((#[trigger] pairs[i]).0) by {
            assert(pairs[i].0 == projects[i].0);
            assert(ids[i] == projects[i].0);
        }
        lemma_index_fold_values(Seq::empty(), pairs, ids);
        lemma_graph_fold_among(include_alias_deps, index_fold(Seq::empty(), pairs), projects, ids);
    }
}

// ---------------------------------------------------------------------------
// Manifest coordinates in moon's dependency model.

/// Whether `UnresolvedVersionSpec::parse` accepts the text.
pub uninterp spec fn version_parses(text: Seq<char>) -> bool;

#[verifier::external_type_specification]
#[verifier::external_body]
pub struct ExUnresolvedVersionSpec(UnresolvedVersionSpec);

/// The spec that `UnresolvedVersionSpec::parse` gives for a text it accepts.
pub uninterp spec fn version_spec_of(text: Seq<char>) -> UnresolvedVersionSpec;

/// Parses a version text with `UnresolvedVersionSpec::parse`. The contract
/// claims that the parse succeeds exactly when [`version_parses`] says so,
/// and that the spec it gives is the one named by [`version_spec_of`]: the
/// parse is a pure function of the text.
#[verifier::external_body]
fn parse_version(text: &str) -> (r: Option<UnresolvedVersionSpec>)
    ensures
        r is Some <==> version_parses(text@),
        r matches Some(s) ==> s == version_spec_of(text@),
{
    UnresolvedVersionSpec::parse(text).ok()
}

/// A dependency in moon's manifest model.
#[derive(Debug)]
pub enum ManifestDep {
    /// A version spec, with the text it was parsed from.
    Version { text: String, spec: UnresolvedVersionSpec },
    /// A configured dependency.
    Config { path: Option<String>, url: Option<String>, reference: Option<String> },
}

/// The characters of a [`ManifestDep`]. A version spec is an opaque outside
/// value and has no view; which spec a version dependency carries is stated
/// by [`spec_fits`] and [`manifest_dependency_from`].
pub enum ManifestDepView {
    Version(Seq<char>),
    Config { path: Option<Seq<char>>, url: Option<Seq<char>>, reference: Option<Seq<char>> },
}

impl View for ManifestDep {
    type V = ManifestDepView;

    open spec fn view(&self) -> ManifestDepView {
        match self {
            ManifestDep::Version { text, .. } => ManifestDepView::Version(text@),
            ManifestDep::Config { path, url, reference } => ManifestDepView::Config {
                path: path.deep_view(),
                url: url.deep_view(),
                reference: reference.deep_view(),
            },
        }
    }
}

/// The git sha, else the git tag.
pub open spec fn git_ref(c: CoordView) -> Option<Seq<char>> {
    if c.git_sha is Some {
        c.git_sha
    } else {
        c.git_tag
    }
}

/// How a coordinate maps onto moon's model: a local path; else a git url
/// with its sha or tag; else a Maven version, as a version spec when it
/// parses as one (given by `parses`) and as a reference otherwise; else
/// just the sha or tag (git deps with inferred urls).
pub open spec fn manifest_dep_of(c: CoordView, parses: bool) -> ManifestDepView {
    if c.local_root is Some {
        ManifestDepView::Config { path: c.local_root, url: None, reference: None }
    } else if c.git_url is Some {
        ManifestDepView::Config { path: None, url: c.git_url, reference: git_ref(c) }
    } else if c.mvn_version is Some {
        if parses {
            ManifestDepView::Version(c.mvn_version->0)
        } else {
            ManifestDepView::Config { path: None, url: None, reference: c.mvn_version }
        }
    } else {
        ManifestDepView::Config { path: None, url: None, reference: git_ref(c) }
    }
}

/// Whether the coordinate's Maven version text parses as a version spec.
pub open spec fn coord_version_parses(c: CoordView) -> bool {
    c.mvn_version is Some && version_parses(c.mvn_version->0)
}

fn git_reference(coord: &DepCoord) -> (r: Option<String>)
    ensures
        r.deep_view() == git_ref(coord@),
{
    match &coord.git_sha {
        Some(s) => Some(s.clone()),
        None => coord.git_tag.clone(),
    }
}

/// Maps a coordinate onto moon's model, given the outcome of parsing its
/// Maven version text as a version spec (`None` when it did not parse or
/// there is none).
pub fn manifest_dependency_from(coord: &DepCoord, parsed: Option<UnresolvedVersionSpec>) -> (r: ManifestDep)
    ensures
        r@ == manifest_dep_of(coord@, parsed is Some),
        r matches ManifestDep::Version { text, spec } ==> coord@.mvn_version == Some(text@) && parsed == Some(spec),
        parsed is Some && coord@.local_root is None && coord@.git_url is None && coord@.mvn_version is Some ==> (
        r matches ManifestDep::Version { spec, .. } && spec == parsed->0),
{
    if let Some(path) = &coord.local_root {
        return ManifestDep::Config { path: Some(path.clone()), url: None, reference: None };
    }
    if let Some(url) = &coord.git_url {
        return ManifestDep::Config { path: None, url: Some(url.clone()), reference: git_reference(coord) };
    }
    if let Some(version) = &coord.mvn_version {
        return match parsed {
            Some(spec) => ManifestDep::Version { text: version.clone(), spec },
            None => ManifestDep::Config { path: None, url: None, reference: Some(version.clone()) },
        };
    }
    ManifestDep::Config { path: None, url: None, reference: git_reference(coord) }
}

/// Maps a coordinate onto moon's model. Maven versions are not always
/// semver ("1.2.3.4", "2.0-alpha1"), so one that does not parse as a
/// version spec becomes a reference.
pub fn to_manifest_dependency(coord: &DepCoord) -> (r: ManifestDep)
    ensures
        r@ == manifest_dep_of(coord@, coord_version_parses(coord@)),
        spec_fits(r),
{
    let parsed = match &coord.mvn_version {
        Some(v) => parse_version(v.as_str()),
        None => None,
    };
    manifest_dependency_from(coord, parsed)
}

/// A version dependency carries the spec that its text parses to.
pub open spec fn spec_fits(d: ManifestDep) -> bool {
    d matches ManifestDep::Version { text, spec } ==> spec == version_spec_of(text@)
}

/// Every version dependency of the list carries the spec its text parses to.
pub open spec fn specs_fit(deps: Seq<(String, ManifestDep)>) -> bool {
    forall|i: int| 0 <= i < deps.len() ==> spec_fits(#[trigger] deps[i].1)
}

/// A manifest's dependencies in moon's model.
#[derive(Debug)]
pub struct ManifestDeps {
    /// Top-level `:deps`, in lib order.
    pub dependencies: Vec<(String, ManifestDep)>,
    /// Alias-scoped deps not among the top-level ones, in lib order.
    pub dev_dependencies: Vec<(String, ManifestDep)>,
}

/// The characters of a `(lib, dependency)` pair.
pub open spec fn lib_dep_view(p: (String, ManifestDep)) -> (Seq<char>, ManifestDepView) {
    (p.0@, p.1@)
}

/// Each binding of `deps` mapped onto moon's model.
pub open spec fn model_deps(deps: Seq<(Seq<char>, CoordView)>) -> Seq<(Seq<char>, ManifestDepView)>
    decreases deps.len(),
{
    if deps.len() == 0 {
        Seq::empty()
    } else {
        let p = deps.last();
        model_deps(deps.drop_last()).push((p.0, manifest_dep_of(p.1, coord_version_parses(p.1))))
    }
}

/// The bindings of `alias` whose lib `deps` does not bind, mapped onto
/// moon's model.
pub open spec fn model_dev_deps(
    alias: Seq<(Seq<char>, CoordView)>,
    deps: Seq<(Seq<char>, CoordView)>,
) -> Seq<(Seq<char>, ManifestDepView)>
    decreases alias.len(),
{
    if alias.len() == 0 {
        Seq::empty()
    } else {
        let p = alias.last();
        let rest = model_dev_deps(alias.drop_last(), deps);
        if assoc_get(deps, p.0) is Some {
            rest
        } else {
            rest.push((p.0, manifest_dep_of(p.1, coord_version_parses(p.1))))
        }
    }
}

/// A parsed manifest's dependencies in moon's model: top-level deps as
/// dependencies, alias-scoped deps not among them as dev dependencies.
pub fn manifest_dependencies(doc: &DepsEdn) -> (r: ManifestDeps)
    ensures
        r.dependencies@.map_values(|p: (String, ManifestDep)| lib_dep_view(p)) == model_deps(doc@.deps),
        r.dev_dependencies@.map_values(|p: (String, ManifestDep)| lib_dep_view(p)) == model_dev_deps(
            doc@.alias_deps,
            doc@.deps,
        ),
        specs_fit(r.dependencies@),
        specs_fit(r.dev_dependencies@),
{
    let mut dependencies: Vec<(String, ManifestDep)> = Vec::new();
    let n = doc.deps.len();
    let mut i: usize = 0;
    while i < n
        invariant
            n == doc.deps@.len(),
            i <= n,
            dependencies@.map_values(|p: (String, ManifestDep)| lib_dep_view(p)) == model_deps(
                doc.deps@.take(i as int),
            ),
            specs_fit(dependencies@),
        decreases n - i,
    {
        let (lib, coord) = doc.deps.entry(i);
        assert(doc.deps@.take(i + 1).drop_last() =~= doc.deps@.take(i as int));
        assert(doc.deps@.take(i + 1).last() == doc.deps@[i as int]);
        let ghost before = dependencies@.map_values(|p: (String, ManifestDep)| lib_dep_view(p));
        let pair = (lib.clone(), to_manifest_dependency(coord));
        let ghost fit_before = dependencies@;
        dependencies.push(pair);
        assert(dependencies@.map_values(|p: (String, ManifestDep)| lib_dep_view(p)) =~= before.push(lib_dep_view(pair)));
        assert forall|k: int| 0 <= k < dependencies@.len() implies spec_fits(#[trigger] dependencies@[k].1) by {
            if k < fit_before.len() {
                assert(dependencies@[k] == fit_before[k]);
            }
        }
        i = i + 1;
    }
    assert(doc.deps@.take(n as int) =~= doc.deps@);
    let mut dev_dependencies: Vec<(String, ManifestDep)> = Vec::new();
    let m = doc.alias_deps.len();
    let mut j: usize = 0;
    while j < m
        invariant
            m == doc.alias_deps@.len(),
            j <= m,
            dev_dependencies@.map_values(|p: (String, ManifestDep)| lib_dep_view(p)) == model_dev_deps(
                doc.alias_deps@.take(j as int),
                doc.deps@,
            ),
            specs_fit(dependencies@),
            specs_fit(dev_dependencies@),
        decreases m - j,
    {
        let (lib, coord) = doc.alias_deps.entry(j);
        assert(doc.alias_deps@.take(j + 1).drop_last() =~= doc.alias_deps@.take(j as int));
        assert(doc.alias_deps@.take(j + 1).last() == doc.alias_deps@[j as int]);
        if !doc.deps.contains_key(lib.as_str()) {
            let ghost before = dev_dependencies@.map_values(|p: (String, ManifestDep)| lib_dep_view(p));
            let pair = (lib.clone(), to_manifest_dependency(coord));
            let ghost fit_before = dev_dependencies@;
            dev_dependencies.push(pair);
            assert(dev_dependencies@.map_values(|p: (String, ManifestDep)| lib_dep_view(p)) =~= before.push(
                lib_dep_view(pair),
            ));
            assert forall|k: int| 0 <= k < dev_dependencies@.len() implies spec_fits(#[trigger] dev_dependencies@[k].1) by {
                if k < fit_before.len() {
                    assert(dev_dependencies@[k] == fit_before[k]);
                }
            }
        }
        j = j + 1;
    }
    assert(doc.alias_deps@.take(m as int) =~= doc.alias_deps@);
    ManifestDeps { dependencies, dev_dependencies }
}

proof fn lemma_model_deps_keys(deps: Seq<(Seq<char>, CoordView)>)
    ensures
        model_deps(deps).len() == deps.len(),
        forall|j: int| 0 <= j < deps.len() ==> (#[trigger] model_deps(deps)[j]).0 == deps[j].0,
    decreases deps.len(),
{
    if deps.len() > 0 {
        lemma_model_deps_keys(deps.drop_last());
    }
}

proof fn lemma_assoc_get_none(deps: Seq<(Seq<char>, CoordView)>, k: Seq<char>)
    requires
        assoc_get(deps, k) is None,
    ensures
        forall|j: int| 0 <= j < deps.len() ==> (#[trigger] deps[j]).0 != k,
    decreases deps.len(),
{
    if deps.len() > 0 {
        lemma_assoc_get_none(deps.drop_first(), k);
        assert forall|j: int| 0 <= j < deps.len() implies (#[trigger] deps[j]).0 != k by {
            if j > 0 {
                assert(deps[j] == deps.drop_first()[j - 1]);
            }
        }
    }
}

proof fn lemma_model_dev_deps_unbound(alias: Seq<(Seq<char>, CoordView)>, deps: Seq<(Seq<char>, CoordView)>)
    ensures
        forall|i: int| 0 <= i < model_dev_deps(alias, deps).len() ==> assoc_get(
            deps,
            (#[trigger] model_dev_deps(alias, deps)[i]).0,
        ) is None,
    decreases alias.len(),
{
    if alias.len() > 0 {
        lemma_model_dev_deps_unbound(alias.drop_last(), deps);
    }
}

/// A manifest's dev dependencies never name a lib that is among its
/// dependencies.
pub proof fn law_manifest_deps_disjoint(alias: Seq<(Seq<char>, CoordView)>, deps: Seq<(Seq<char>, CoordView)>)
    ensures
        forall|i: int, j: int|
            0 <= i < model_dev_deps(alias, deps).len() && 0 <= j < model_deps(deps).len() ==> (#[trigger] model_dev_deps(
                alias,
                deps,
            )[i]).0 != (#[trigger] model_deps(deps)[j]).0,
{
    lemma_model_deps_keys(deps);
    lemma_model_dev_deps_unbound(alias, deps);
    assert forall|i: int, j: int|
        0 <= i < model_dev_deps(alias, deps).len() && 0 <= j < model_deps(deps).len() implies (#[trigger] model_dev_deps(
            alias,
            deps,
        )[i]).0 != (#[trigger] model_deps(deps)[j]).0 by {
        lemma_assoc_get_none(deps, model_dev_deps(alias, deps)[i].0);
        assert(model_deps(deps)[j].0 == deps[j].0);
    }
}

/// Parses a manifest's text and maps its dependencies onto moon's model;
/// text that is not EDN is reported with the manifest's path.
pub fn parse_manifest(path: &str, content: &str) -> (r: Result<ManifestDeps, ClosureError>)
    ensures
        match parse_result(content@) {
            Err(m) => r matches Err(ClosureError::InvalidManifest { path: p, error: DepsEdnError::InvalidEdn(e) })
                && p@ == path@ && e@ == m,
            Ok(doc) => r matches Ok(d) && d.dependencies@.map_values(|p: (String, ManifestDep)| lib_dep_view(p))
                == model_deps(doc.deps) && d.dev_dependencies@.map_values(
                |p: (String, ManifestDep)| lib_dep_view(p),
            ) == model_dev_deps(doc.alias_deps, doc.deps) && specs_fit(d.dependencies@) && specs_fit(
                d.dev_dependencies@,
            ),
        },
{
    match DepsEdn::parse(content) {
        Ok(doc) => Ok(manifest_dependencies(&doc)),
        Err(e) => Err(ClosureError::InvalidManifest { path: path.to_owned(), error: e }),
    }
}

// ---------------------------------------------------------------------------
// Project sync.

/// Whether `p` occurs in `s`.
pub open spec fn contains_text(s: Seq<char>, p: Seq<char>) -> bool {
    exists|i: int| 0 <= i && i + p.len() <= s.len() && #[trigger] s.subrange(i, i + p.len()) == p
}

fn contains_chars(s: &Vec<char>, p: &Vec<char>) -> (r: bool)
    ensures
        r == contains_text(s@, p@),
{
    if p.len() > s.len() {
        return false;
    }
    let mut i: usize = 0;
    while i <= s.len() - p.len()
        invariant
            p.len() <= s.len(),
            i <= s.len() - p.len() + 1,
            forall|j: int| 0 <= j < i ==> #[trigger] s@.subrange(j, j + p@.len()) != p@,
        decreases s.len() - i,
    {
        let mut k: usize = 0;
        while k < p.len() && s[i + k] == p[k]
            invariant
                i + p.len() <= s.len(),
                k <= p.len(),
                s@.subrange(i as int, i + k) == p@.take(k as int),
            decreases p.len() - k,
        {
            assert(s@.subrange(i as int, i + k + 1) =~= s@.subrange(i as int, i + k).push(s@[i + k]));
            assert(p@.take(k + 1) =~= p@.take(k as int).push(p@[k as int]));
            k = k + 1;
        }
        if k == p.len() {
            assert(p@.take(k as int) =~= p@);
            return true;
        }
        assert(s@.subrange(i as int, i + p.len())[k as int] == s@[i + k]);
        i = i + 1;
    }
    assert forall|j: int| 0 <= j && j + p@.len() <= s@.len() implies #[trigger] s@.subrange(j, j + p@.len()) != p@ by {
        assert(j < i);
    }
    false
}

/// What project sync writes to `moon.yml`: nothing for a project with no
/// dependency dirs and no managed block (no churn for leaf projects) or
/// with a hand-written `fileGroups` key and no managed block (it would
/// collide); otherwise the spliced text, unless it is unchanged.
pub open spec fn sync_update_spec(dirs: Seq<Seq<char>>, existing: Seq<char>) -> Option<Seq<char>> {
    let has_markers = contains_text(existing, BLOCK_START@);
    if dirs.len() == 0 && !has_markers {
        None
    } else if !has_markers && unmanaged_groups(existing) {
        None
    } else {
        splice_result(existing, rendered(dirs))
    }
}

/// The new `moon.yml` text for a project, given its dependency source dirs
/// and the current text (empty when there is no file); `None` to leave the
/// file alone.
pub fn sync_update(dirs: &StrSet, existing: &str) -> (r: Option<String>)
    ensures
        r.deep_view() == sync_update_spec(dirs@, existing@),
{
    let has_markers = contains_chars(&chars_of(existing), &chars_of(BLOCK_START));
    if dirs.is_empty() && !has_markers {
        return None;
    }
    if !has_markers && has_unmanaged_file_groups(existing) {
        return None;
    }
    let block = render_local_deps_block(dirs);
    splice_managed_block(existing, block.as_str())
}

proof fn lemma_block_start_in(a: Seq<char>, b: Seq<char>, dirs: Seq<Seq<char>>)
    ensures
        contains_text(a + rendered(dirs) + b, BLOCK_START@),
{
    let t = a + rendered(dirs) + b;
    let n = BLOCK_START@.len();
    assert(t.subrange(a.len() as int, a.len() + n as int) =~= BLOCK_START@);
}

/// Project sync settles: once it has written a project's `moon.yml`, a
/// second sync with the same dependency dirs leaves the file alone. This
/// holds for dirs without line breaks and for text without carriage returns
/// whose first start marker precedes its first end marker, or that has
/// neither marker.
pub proof fn law_sync_settles(dirs: Seq<Seq<char>>, existing: Seq<char>)
    requires
        forall|i: int| 0 <= i < dirs.len() ==> !(#[trigger] dirs[i]).contains('\n'),
        !existing.contains('\r'),
        markers_in_order(existing),
    ensures
        sync_update_spec(dirs, existing) matches Some(u) ==> sync_update_spec(dirs, u) is None,
{
    if let Some(u) = sync_update_spec(dirs, existing) {
        let ls = lines(existing);
        let s = find_line(ls, BLOCK_START@, 0);
        let e = find_line(ls, BLOCK_END@, 0);
        if s is Some && e is Some && s->0 <= e->0 {
            lemma_block_start_in(join_lines(ls.take(s->0)), join_lines(ls.skip(e->0 + 1)), dirs);
        } else {
            lemma_block_start_in(pad_blank(existing), Seq::empty(), dirs);
            assert(pad_blank(existing) + rendered(dirs) + Seq::<char>::empty() =~= pad_blank(existing) + rendered(dirs));
        }
        law_splice_rendered_idempotent(existing, dirs);
    }
}

// ---------------------------------------------------------------------------
// Task hashing.

/// What a task hash holds for the toolchain.
#[derive(Clone, Debug, PartialEq)]
pub struct TaskHashContents {
    /// Manifest path -> content hash or marker, over the whole closure.
    pub manifests: SortedMap<String>,
    /// Dependency source file -> content hash or marker; left out when
    /// empty, so that leaf projects hash as they did before source hashing.
    pub local_sources: Option<SortedMap<String>>,
    /// The aliases activated when preparing dependencies; left out when empty.
    pub prepare_aliases: Option<Vec<String>>,
}

/// Folds a closure's contents and the toolchain settings into what a task
/// hash holds.
pub fn task_hash_contents(closure: ClosureContents, config: &ClojureToolchainConfig) -> (r: TaskHashContents)
    ensures
        r.manifests@ == closure.manifests@,
        closure.sources@.len() == 0 ==> r.local_sources is None,
        closure.sources@.len() > 0 ==> (r.local_sources matches Some(s) && s@ == closure.sources@),
        config.prepare_aliases@.len() == 0 ==> r.prepare_aliases is None,
        config.prepare_aliases@.len() > 0 ==> (r.prepare_aliases matches Some(a) && a.deep_view()
            == config.prepare_aliases.deep_view()),
{
    let ClosureContents { manifests, sources } = closure;
    let local_sources = if sources.is_empty() {
        None
    } else {
        Some(sources)
    };
    let prepare_aliases = if config.prepare_aliases.len() == 0 {
        None
    } else {
        let mut a: Vec<String> = Vec::new();
        let mut i: usize = 0;
        while i < config.prepare_aliases.len()
            invariant
                i <= config.prepare_aliases.len(),
                a.deep_view() == config.prepare_aliases.deep_view().take(i as int),
            decreases config.prepare_aliases.len() - i,
        {
            let ghost before = a.deep_view();
            a.push(config.prepare_aliases[i].clone());
            assert(a.deep_view() =~= before.push(config.prepare_aliases.deep_view()[i as int]));
            assert(a.deep_view() =~= config.prepare_aliases.deep_view().take(i + 1));
            i = i + 1;
        }
        assert(config.prepare_aliases.deep_view().take(config.prepare_aliases.len() as int) =~= config.prepare_aliases.deep_view());
        Some(a)
    };
    TaskHashContents { manifests, local_sources, prepare_aliases }
}

} // verus!
