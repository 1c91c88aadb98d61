//! The subset of a `deps.edn` / `bb.edn` document that the toolchain reads:
//! top-level `:paths` and `:deps`, and the union of alias-scoped deps and
//! paths.
use vstd::prelude::*;
use crate::edn::{edn_document, get_key, lookup_key, read_edn, untag, untag_node, EdnNode};
use crate::sorted::{assoc_get, assoc_insert, keys_of, lemma_assoc_insert, SortedMap};
use crate::text::{blank, is_blank, lemma_seq_lt_irreflexive, seq_lt, strictly_sorted, vec_contains_str};

verus! {

/// A single dependency coordinate from a `:deps` map.
#[derive(Clone, Debug, PartialEq)]
pub struct DepCoord {
    pub mvn_version: Option<String>,
    pub local_root: Option<String>,
    pub git_url: Option<String>,
    pub git_sha: Option<String>,
    pub git_tag: Option<String>,
}

/// The characters of each field of a [`DepCoord`].
pub struct CoordView {
    pub mvn_version: Option<Seq<char>>,
    pub local_root: Option<Seq<char>>,
    pub git_url: Option<Seq<char>>,
    pub git_sha: Option<Seq<char>>,
    pub git_tag: Option<Seq<char>>,
}

impl View for DepCoord {
    type V = CoordView;

    open spec fn view(&self) -> CoordView {
        CoordView {
            mvn_version: self.mvn_version.deep_view(),
            local_root: self.local_root.deep_view(),
            git_url: self.git_url.deep_view(),
            git_sha: self.git_sha.deep_view(),
            git_tag: self.git_tag.deep_view(),
        }
    }
}

/// The coordinate with no field set.
pub open spec fn empty_coord() -> CoordView {
    CoordView { mvn_version: None, local_root: None, git_url: None, git_sha: None, git_tag: None }
}

impl DepCoord {
    /// The coordinate with no field set.
    pub fn empty() -> (r: DepCoord)
        ensures
            r@ == empty_coord(),
    {
        DepCoord { mvn_version: None, local_root: None, git_url: None, git_sha: None, git_tag: None }
    }

    /// Whether the coordinate is a `:local/root` one.
    pub fn is_local(&self) -> (r: bool)
        ensures
            r == (self@.local_root is Some),
    {
        self.local_root.is_some()
    }
}

impl Default for DepCoord {
    fn default() -> (r: DepCoord)
        ensures
            r@ == empty_coord(),
    {
        DepCoord::empty()
    }
}

/// A map from lib names to coordinates, kept in increasing lib order, like
/// the `BTreeMap` that tools.deps data naturally forms.
pub type DepMap = SortedMap<DepCoord>;

/// The characters of each field of a [`DepsEdn`].
pub struct DepsView {
    pub paths: Seq<Seq<char>>,
    pub deps: Seq<(Seq<char>, CoordView)>,
    pub alias_deps: Seq<(Seq<char>, CoordView)>,
    pub alias_paths: Seq<Seq<char>>,
}

/// The subset of a `deps.edn` / `bb.edn` document that the toolchain
/// cares about. Alias-scoped values are unioned across all aliases.
#[derive(Clone, Debug, PartialEq)]
pub struct DepsEdn {
    /// Top-level `:paths` (with alias keyword indirections resolved).
    pub paths: Vec<String>,
    /// Top-level `:deps`, keyed by lib symbol (e.g. `org.clojure/clojure`).
    pub deps: DepMap,
    /// Union of `:extra-deps`, `:replace-deps`, `:deps`, `:override-deps`,
    /// and `:default-deps` across all aliases.
    pub alias_deps: DepMap,
    /// Union of `:extra-paths`, `:replace-paths`, and `:paths` across all aliases.
    pub alias_paths: Vec<String>,
}

impl View for DepsEdn {
    type V = DepsView;

    open spec fn view(&self) -> DepsView {
        DepsView {
            paths: self.paths.deep_view(),
            deps: self.deps@,
            alias_deps: self.alias_deps@,
            alias_paths: self.alias_paths.deep_view(),
        }
    }
}

/// The document with nothing in it.
pub open spec fn empty_doc() -> DepsView {
    DepsView {
        paths: Seq::empty(),
        deps: Seq::empty(),
        alias_deps: Seq::empty(),
        alias_paths: Seq::empty(),
    }
}

// ---------------------------------------------------------------------------
// What a document means.

/// The string stored under `:key` in a coordinate map.
pub open spec fn coord_str(m: Seq<(EdnNode, EdnNode)>, key: Seq<char>) -> Option<Seq<char>> {
    match lookup_key(m, key) {
        Some(v) => match untag(v) {
            EdnNode::Str(s) => Some(s@),
            _ => None,
        },
        None => None,
    }
}

/// `a`, or `b` when `a` is absent.
pub open spec fn or_else(a: Option<Seq<char>>, b: Option<Seq<char>>) -> Option<Seq<char>> {
    if a is Some {
        a
    } else {
        b
    }
}

/// The coordinate a `:deps` map value denotes.
pub open spec fn coord_of(e: EdnNode) -> CoordView {
    match untag(e) {
        EdnNode::Mapping(m) => CoordView {
            mvn_version: coord_str(m@, "mvn/version"@),
            local_root: coord_str(m@, "local/root"@),
            git_url: coord_str(m@, "git/url"@),
            git_sha: or_else(coord_str(m@, "git/sha"@), coord_str(m@, "sha"@)),
            git_tag: or_else(coord_str(m@, "git/tag"@), coord_str(m@, "tag"@)),
        },
        _ => empty_coord(),
    }
}

/// The lib name a `:deps` map key denotes: a symbol or a string.
pub open spec fn dep_name(e: EdnNode) -> Option<Seq<char>> {
    match untag(e) {
        EdnNode::Symbol(s) => Some(s@),
        EdnNode::Str(s) => Some(s@),
        _ => None,
    }
}

/// Binds every named entry of a `:deps` map, in entry order.
pub open spec fn deps_fold(acc: Seq<(Seq<char>, CoordView)>, entries: Seq<(EdnNode, EdnNode)>) -> Seq<
    (Seq<char>, CoordView),
>
    decreases entries.len(),
{
    if entries.len() == 0 {
        acc
    } else {
        let next = match dep_name(entries[0].0) {
            Some(n) => assoc_insert(acc, n, coord_of(entries[0].1)),
            None => acc,
        };
        deps_fold(next, entries.drop_first())
    }
}

/// `acc` with the bindings of a `:deps`-style value added.
pub open spec fn deps_into(acc: Seq<(Seq<char>, CoordView)>, e: EdnNode) -> Seq<(Seq<char>, CoordView)> {
    match untag(e) {
        EdnNode::Mapping(m) => deps_fold(acc, m@),
        _ => acc,
    }
}

/// `out` with `p` appended unless already present.
pub open spec fn push_unique(out: Seq<Seq<char>>, p: Seq<char>) -> Seq<Seq<char>> {
    if out.contains(p) {
        out
    } else {
        out.push(p)
    }
}

/// Collects the string entries of a `:paths`-style vector; keyword entries
/// name aliases (when `aliases` is given) whose vector is collected in turn.
pub open spec fn paths_items(
    out: Seq<Seq<char>>,
    items: Seq<EdnNode>,
    aliases: Option<Seq<(EdnNode, EdnNode)>>,
) -> Seq<Seq<char>>
    decreases (if aliases is Some { 1int } else { 0int }), items.len(),
{
    if items.len() == 0 {
        out
    } else {
        let next = match untag(items[0]) {
            EdnNode::Str(s) => push_unique(out, s@),
            EdnNode::Key(name) => match aliases {
                Some(al) => match lookup_key(al, name@) {
                    Some(p) => match untag(p) {
                        EdnNode::Vector(v) => paths_items(out, v@, None),
                        _ => out,
                    },
                    None => out,
                },
                None => out,
            },
            _ => out,
        };
        paths_items(next, items.drop_first(), aliases)
    }
}

/// `out` with the paths of a `:paths`-style value added.
pub open spec fn paths_into(
    out: Seq<Seq<char>>,
    e: EdnNode,
    aliases: Option<Seq<(EdnNode, EdnNode)>>,
) -> Seq<Seq<char>> {
    match untag(e) {
        EdnNode::Vector(items) => paths_items(out, items@, aliases),
        _ => out,
    }
}

/// `acc` with the value under `:key` of a map added as deps.
pub open spec fn deps_under(acc: Seq<(Seq<char>, CoordView)>, m: Seq<(EdnNode, EdnNode)>, key: Seq<char>) -> Seq<
    (Seq<char>, CoordView),
> {
    match lookup_key(m, key) {
        Some(d) => deps_into(acc, d),
        None => acc,
    }
}

/// `out` with the value under `:key` of a map added as paths.
pub open spec fn paths_under(out: Seq<Seq<char>>, m: Seq<(EdnNode, EdnNode)>, key: Seq<char>) -> Seq<Seq<char>> {
    match lookup_key(m, key) {
        Some(p) => paths_into(out, p, None),
        None => out,
    }
}

/// The alias-scoped deps of one alias map, in the order tools.deps keys are scanned.
pub open spec fn alias_map_deps(acc: Seq<(Seq<char>, CoordView)>, am: Seq<(EdnNode, EdnNode)>) -> Seq<
    (Seq<char>, CoordView),
> {
    let a1 = deps_under(acc, am, "extra-deps"@);
    let a2 = deps_under(a1, am, "replace-deps"@);
    let a3 = deps_under(a2, am, "deps"@);
    let a4 = deps_under(a3, am, "override-deps"@);
    deps_under(a4, am, "default-deps"@)
}

/// The alias-scoped paths of one alias map.
pub open spec fn alias_map_paths(out: Seq<Seq<char>>, am: Seq<(EdnNode, EdnNode)>) -> Seq<Seq<char>> {
    let p1 = paths_under(out, am, "extra-paths"@);
    let p2 = paths_under(p1, am, "replace-paths"@);
    paths_under(p2, am, "paths"@)
}

/// Unions the deps of every alias whose value is a map, in alias order.
pub open spec fn aliases_deps(acc: Seq<(Seq<char>, CoordView)>, entries: Seq<(EdnNode, EdnNode)>) -> Seq<
    (Seq<char>, CoordView),
>
    decreases entries.len(),
{
    if entries.len() == 0 {
        acc
    } else {
        let next = match untag(entries[0].1) {
            EdnNode::Mapping(am) => alias_map_deps(acc, am@),
            _ => acc,
        };
        aliases_deps(next, entries.drop_first())
    }
}

/// Unions the paths of every alias whose value is a map, in alias order.
pub open spec fn aliases_paths(out: Seq<Seq<char>>, entries: Seq<(EdnNode, EdnNode)>) -> Seq<Seq<char>>
    decreases entries.len(),
{
    if entries.len() == 0 {
        out
    } else {
        let next = match untag(entries[0].1) {
            EdnNode::Mapping(am) => alias_map_paths(out, am@),
            _ => out,
        };
        aliases_paths(next, entries.drop_first())
    }
}

/// The entries of the `:aliases` map, when it is one.
pub open spec fn aliases_of(root: Seq<(EdnNode, EdnNode)>) -> Option<Seq<(EdnNode, EdnNode)>> {
    match lookup_key(root, "aliases"@) {
        Some(a) => match untag(a) {
            EdnNode::Mapping(am) => Some(am@),
            _ => None,
        },
        None => None,
    }
}

/// What a document's top-level value means to the toolchain. A value that
/// is not a map means an empty configuration.
pub open spec fn interpret(root: EdnNode) -> DepsView {
    match untag(root) {
        EdnNode::Mapping(m) => {
            let al = aliases_of(m@);
            DepsView {
                paths: match lookup_key(m@, "paths"@) {
                    Some(p) => paths_into(Seq::empty(), p, al),
                    None => Seq::empty(),
                },
                deps: match lookup_key(m@, "deps"@) {
                    Some(d) => deps_into(Seq::empty(), d),
                    None => Seq::empty(),
                },
                alias_deps: match al {
                    Some(entries) => aliases_deps(Seq::empty(), entries),
                    None => Seq::empty(),
                },
                alias_paths: match al {
                    Some(entries) => aliases_paths(Seq::empty(), entries),
                    None => Seq::empty(),
                },
            }
        },
        _ => empty_doc(),
    }
}

/// Why a manifest could not be read.
#[derive(Clone, Debug, PartialEq)]
pub enum DepsEdnError {
    /// The text is not EDN; holds the reader's account of why.
    InvalidEdn(String),
}

/// What parsing a manifest's text yields: blank text is an empty
/// configuration; otherwise the reader's value is interpreted, and a
/// reader error is reported.
pub open spec fn parse_result(content: Seq<char>) -> Result<DepsView, Seq<char>> {
    if is_blank(content) {
        Ok(empty_doc())
    } else {
        match edn_document(content) {
            Ok(root) => Ok(interpret(root)),
            Err(m) => Err(m@),
        }
    }
}

/// The `:local/root` bindings of `deps`, in order, as `(lib, root, false)`.
pub open spec fn local_top(deps: Seq<(Seq<char>, CoordView)>) -> Seq<(Seq<char>, Seq<char>, bool)>
    decreases deps.len(),
{
    if deps.len() == 0 {
        Seq::empty()
    } else {
        let p = deps.last();
        local_top(deps.drop_last()) + match p.1.local_root {
            Some(r) => seq![(p.0, r, false)],
            None => Seq::empty(),
        }
    }
}

/// Whether `lib` is bound to a `:local/root` coordinate in `deps`.
pub open spec fn is_local_in(deps: Seq<(Seq<char>, CoordView)>, lib: Seq<char>) -> bool {
    match assoc_get(deps, lib) {
        Some(c) => c.local_root is Some,
        None => false,
    }
}

/// The `:local/root` bindings of `alias`, in order, as `(lib, root, true)`,
/// leaving out libs that `deps` already binds to a `:local/root`.
pub open spec fn local_alias(
    alias: Seq<(Seq<char>, CoordView)>,
    deps: Seq<(Seq<char>, CoordView)>,
) -> Seq<(Seq<char>, Seq<char>, bool)>
    decreases alias.len(),
{
    if alias.len() == 0 {
        Seq::empty()
    } else {
        let p = alias.last();
        local_alias(alias.drop_last(), deps) + match p.1.local_root {
            Some(r) => if is_local_in(deps, p.0) {
                Seq::empty()
            } else {
                seq![(p.0, r, true)]
            },
            None => Seq::empty(),
        }
    }
}

/// All `:local/root` dependencies of a document: top-level ones first, then
/// (when asked for) alias-scoped ones not already seen.
pub open spec fn spec_local_deps(d: DepsView, include_aliases: bool) -> Seq<(Seq<char>, Seq<char>, bool)> {
    local_top(d.deps) + if include_aliases {
        local_alias(d.alias_deps, d.deps)
    } else {
        Seq::empty()
    }
}

/// The characters of each part of a `(lib, root, from_alias)` triple.
pub open spec fn triple_view(t: (&str, &str, bool)) -> (Seq<char>, Seq<char>, bool) {
    (t.0@, t.1@, t.2)
}

// ---------------------------------------------------------------------------
// Laws of the document model.

/// The lib names of a list of `(lib, root, from_alias)` triples.
pub open spec fn libs_of(s: Seq<(Seq<char>, Seq<char>, bool)>) -> Seq<Seq<char>> {
    s.map_values(|t: (Seq<char>, Seq<char>, bool)| t.0)
}

/// With distinct keys, a key's first binding is its only one.
pub proof fn lemma_assoc_get_unique(s: Seq<(Seq<char>, CoordView)>, i: int)
    requires
        strictly_sorted(keys_of(s)),
        0 <= i < s.len(),
    ensures
        assoc_get(s, s[i].0) == Some(s[i].1),
    decreases s.len(),
{
    if i > 0 {
        assert(keys_of(s)[0] == s[0].0);
        assert(keys_of(s)[i] == s[i].0);
        lemma_seq_lt_irreflexive(s[0].0);
        assert(s[0].0 != s[i].0);
        let t = s.drop_first();
        assert(keys_of(t) =~= keys_of(s).drop_first());
        assert(t[i - 1] == s[i]);
        lemma_assoc_get_unique(t, i - 1);
    }
}

proof fn lemma_local_top_shape(deps: Seq<(Seq<char>, CoordView)>)
    requires
        strictly_sorted(keys_of(deps)),
    ensures
        strictly_sorted(libs_of(local_top(deps))),
        forall|t: int| 0 <= t < local_top(deps).len() ==> {
            &&& is_local_in(deps, #[trigger] local_top(deps)[t].0)
            &&& !local_top(deps)[t].2
            &&& exists|i: int| 0 <= i < deps.len() && deps[i].0 == local_top(deps)[t].0
        },
    decreases deps.len(),
{
    if deps.len() > 0 {
        let init = deps.drop_last();
        assert(keys_of(init) =~= keys_of(deps).drop_last());
        lemma_local_top_shape(init);
        let n = deps.len() - 1;
        assert(keys_of(deps)[n] == deps[n].0);
        let lt = local_top(deps);
        let li = local_top(init);
        assert forall|t: int| 0 <= t < lt.len() implies {
            &&& is_local_in(deps, #[trigger] lt[t].0)
            &&& !lt[t].2
            &&& exists|i: int| 0 <= i < deps.len() && deps[i].0 == lt[t].0
        } by {
            if t < li.len() {
                let i = choose|i: int| 0 <= i < init.len() && init[i].0 == li[t].0;
                assert(deps[i] == init[i]);
                lemma_assoc_get_unique(deps, i);
                lemma_assoc_get_unique(init, i);
            } else {
                lemma_assoc_get_unique(deps, n);
            }
        }
        assert forall|a: int, b: int| 0 <= a < b < libs_of(lt).len() implies seq_lt(
            libs_of(lt)[a],
            libs_of(lt)[b],
        ) by {
            if b < li.len() {
                assert(libs_of(lt)[a] == libs_of(li)[a]);
                assert(libs_of(lt)[b] == libs_of(li)[b]);
            } else {
                assert(libs_of(lt)[a] == li[a].0);
                let i = choose|i: int| 0 <= i < init.len() && init[i].0 == li[a].0;
                assert(keys_of(deps)[i] == deps[i].0);
            }
        }
    }
}

proof fn lemma_local_alias_shape(alias: Seq<(Seq<char>, CoordView)>, deps: Seq<(Seq<char>, CoordView)>)
    requires
        strictly_sorted(keys_of(alias)),
    ensures
        strictly_sorted(libs_of(local_alias(alias, deps))),
        forall|t: int| 0 <= t < local_alias(alias, deps).len() ==> {
            &&& !is_local_in(deps, #[trigger] local_alias(alias, deps)[t].0)
            &&& local_alias(alias, deps)[t].2
            &&& exists|i: int| 0 <= i < alias.len() && alias[i].0 == local_alias(alias, deps)[t].0
        },
    decreases alias.len(),
{
    if alias.len() > 0 {
        let init = alias.drop_last();
        assert(keys_of(init) =~= keys_of(alias).drop_last());
        lemma_local_alias_shape(init, deps);
        let n = alias.len() - 1;
        assert(keys_of(alias)[n] == alias[n].0);
        let la = local_alias(alias, deps);
        let li = local_alias(init, deps);
        assert forall|t: int| 0 <= t < la.len() implies {
            &&& !is_local_in(deps, #[trigger] la[t].0)
            &&& la[t].2
            &&& exists|i: int| 0 <= i < alias.len() && alias[i].0 == la[t].0
        } by {
            if t < li.len() {
                let i = choose|i: int| 0 <= i < init.len() && init[i].0 == li[t].0;
                assert(alias[i] == init[i]);
            }
        }
        assert forall|a: int, b: int| 0 <= a < b < libs_of(la).len() implies seq_lt(
            libs_of(la)[a],
            libs_of(la)[b],
        ) by {
            if b < li.len() {
                assert(libs_of(la)[a] == libs_of(li)[a]);
                assert(libs_of(la)[b] == libs_of(li)[b]);
            } else {
                assert(libs_of(la)[a] == li[a].0);
                let i = choose|i: int| 0 <= i < init.len() && init[i].0 == li[a].0;
                assert(keys_of(alias)[i] == alias[i].0);
            }
        }
    }
}

/// The lib maps of a document keep their keys strictly increasing.
pub open spec fn doc_wf(d: DepsView) -> bool {
    &&& strictly_sorted(keys_of(d.deps))
    &&& strictly_sorted(keys_of(d.alias_deps))
}

/// `local_deps` names every lib at most once: top-level `:local/root` deps
/// come first (flagged `false`), followed by alias-scoped ones (flagged
/// `true`) whose lib is not already a top-level local dependency; leaving
/// the aliases out gives exactly the top-level part.
pub proof fn law_local_deps_unique(d: DepsView)
    requires
        doc_wf(d),
    ensures
        forall|a: int, b: int|
            0 <= a < b < spec_local_deps(d, true).len() ==> spec_local_deps(d, true)[a].0
                != spec_local_deps(d, true)[b].0,
        spec_local_deps(d, true).take(spec_local_deps(d, false).len() as int) == spec_local_deps(d, false),
        forall|t: int|
            0 <= t < spec_local_deps(d, true).len() ==> (#[trigger] spec_local_deps(d, true)[t].2 <==> t
                >= spec_local_deps(d, false).len()),
{
    lemma_local_top_shape(d.deps);
    lemma_local_alias_shape(d.alias_deps, d.deps);
    let top = local_top(d.deps);
    let al = local_alias(d.alias_deps, d.deps);
    let all = spec_local_deps(d, true);
    assert(spec_local_deps(d, false) =~= top);
    assert(all =~= top + al);
    assert(all.take(top.len() as int) =~= top);
    assert forall|t: int| 0 <= t < all.len() implies (#[trigger] all[t].2 <==> t >= top.len()) by {
        if t < top.len() {
            assert(all[t] == top[t]);
            assert(is_local_in(d.deps, top[t].0));
        } else {
            assert(all[t] == al[t - top.len()]);
            assert(!is_local_in(d.deps, al[t - top.len()].0));
        }
    }
    assert forall|a: int, b: int| 0 <= a < b < all.len() implies all[a].0 != all[b].0 by {
        if b < top.len() {
            assert(libs_of(top)[a] == top[a].0);
            assert(libs_of(top)[b] == top[b].0);
            lemma_seq_lt_irreflexive(top[a].0);
        } else if a >= top.len() {
            assert(libs_of(al)[a - top.len()] == al[a - top.len()].0);
            assert(libs_of(al)[b - top.len()] == al[b - top.len()].0);
            lemma_seq_lt_irreflexive(al[a - top.len()].0);
        } else {
            assert(is_local_in(d.deps, top[a].0));
            assert(!is_local_in(d.deps, al[b - top.len()].0));
        }
    }
}

/// Binding libs one entry at a time keeps the keys strictly increasing.
proof fn lemma_deps_fold_sorted(acc: Seq<(Seq<char>, CoordView)>, entries: Seq<(EdnNode, EdnNode)>)
    requires
        strictly_sorted(keys_of(acc)),
    ensures
        strictly_sorted(keys_of(deps_fold(acc, entries))),
    decreases entries.len(),
{
    if entries.len() > 0 {
        let next = match dep_name(entries[0].0) {
            Some(n) => assoc_insert(acc, n, coord_of(entries[0].1)),
            None => acc,
        };
        if let Some(n) = dep_name(entries[0].0) {
            lemma_assoc_insert(acc, n, coord_of(entries[0].1));
        }
        lemma_deps_fold_sorted(next, entries.drop_first());
    }
}

proof fn lemma_deps_into_sorted(acc: Seq<(Seq<char>, CoordView)>, e: EdnNode)
    requires
        strictly_sorted(keys_of(acc)),
    ensures
        strictly_sorted(keys_of(deps_into(acc, e))),
{
    if let EdnNode::Mapping(m) = untag(e) {
        lemma_deps_fold_sorted(acc, m@);
    }
}

proof fn lemma_deps_under_sorted(acc: Seq<(Seq<char>, CoordView)>, m: Seq<(EdnNode, EdnNode)>, key: Seq<char>)
    requires
        strictly_sorted(keys_of(acc)),
    ensures
        strictly_sorted(keys_of(deps_under(acc, m, key))),
{
    if let Some(d) = lookup_key(m, key) {
        lemma_deps_into_sorted(acc, d);
    }
}

proof fn lemma_aliases_deps_sorted(acc: Seq<(Seq<char>, CoordView)>, entries: Seq<(EdnNode, EdnNode)>)
    requires
        strictly_sorted(keys_of(acc)),
    ensures
        strictly_sorted(keys_of(aliases_deps(acc, entries))),
    decreases entries.len(),
{
    if entries.len() > 0 {
        let next = match untag(entries[0].1) {
            EdnNode::Mapping(am) => alias_map_deps(acc, am@),
            _ => acc,
        };
        if let EdnNode::Mapping(am) = untag(entries[0].1) {
            let a = am@;
            lemma_deps_under_sorted(acc, a, "extra-deps"@);
            let a1 = deps_under(acc, a, "extra-deps"@);
            lemma_deps_under_sorted(a1, a, "replace-deps"@);
            let a2 = deps_under(a1, a, "replace-deps"@);
            lemma_deps_under_sorted(a2, a, "deps"@);
            let a3 = deps_under(a2, a, "deps"@);
            lemma_deps_under_sorted(a3, a, "override-deps"@);
            let a4 = deps_under(a3, a, "override-deps"@);
            lemma_deps_under_sorted(a4, a, "default-deps"@);
        }
        lemma_aliases_deps_sorted(next, entries.drop_first());
    }
}

/// Every document the toolchain reads has its lib maps in strictly
/// increasing lib order, whatever order the EDN text gave.
pub proof fn law_interpret_sorted(root: EdnNode)
    ensures
        doc_wf(interpret(root)),
{
    let empty = Seq::<(Seq<char>, CoordView)>::empty();
    assert(keys_of(empty) =~= Seq::<Seq<char>>::empty());
    if let EdnNode::Mapping(m) = untag(root) {
        if let Some(d) = lookup_key(m@, "deps"@) {
            lemma_deps_into_sorted(empty, d);
        }
        if let Some(entries) = aliases_of(m@) {
            lemma_aliases_deps_sorted(empty, entries);
        }
    }
}

/// The value of a map's only entry, when the value is a map of exactly one
/// entry whose key is the keyword `:key`.
pub open spec fn sole_key_value(n: EdnNode, key: Seq<char>) -> Option<EdnNode> {
    match untag(n) {
        EdnNode::Mapping(m) => if m@.len() == 1 && m@[0].0 is Key && m@[0].0->Key_0@ == key {
            Some(m@[0].1)
        } else {
            None
        },
        _ => None,
    }
}

/// The value of a map's only entry, whatever its key.
pub open spec fn sole_value(n: EdnNode) -> Option<EdnNode> {
    match untag(n) {
        EdnNode::Mapping(m) => if m@.len() == 1 {
            Some(m@[0].1)
        } else {
            None
        },
        _ => None,
    }
}

/// Every one of the alias keys `:extra-deps`, `:replace-deps`, `:deps`,
/// `:override-deps` and `:default-deps` contributes its deps map: a document
/// whose only alias holds only one of them, with the map `d`, has exactly
/// the alias-scoped deps that a document with `d` as its top-level `:deps`
/// has as deps.
pub proof fn law_alias_deps_keys(doc: EdnNode, top: EdnNode, key: Seq<char>)
    requires
        key == "extra-deps"@ || key == "replace-deps"@ || key == "deps"@ || key == "override-deps"@ || key
            == "default-deps"@,
        sole_key_value(doc, "aliases"@) is Some,
        sole_value(sole_key_value(doc, "aliases"@)->0) is Some,
        sole_key_value(top, "deps"@) is Some,
        sole_key_value(sole_value(sole_key_value(doc, "aliases"@)->0)->0, key) == sole_key_value(top, "deps"@),
    ensures
        interpret(doc).alias_deps == interpret(top).deps,
{
    reveal_strlit("extra-deps");
    reveal_strlit("replace-deps");
    reveal_strlit("deps");
    reveal_strlit("override-deps");
    reveal_strlit("default-deps");
    reveal_strlit("aliases");
    let d = sole_key_value(top, "deps"@)->0;
    let al = sole_key_value(doc, "aliases"@)->0;
    let a = sole_value(al)->0;
    if let EdnNode::Mapping(m) = untag(doc) {
        if let EdnNode::Mapping(alm) = untag(al) {
            if let EdnNode::Mapping(am) = untag(a) {
                if let EdnNode::Mapping(tm) = untag(top) {
                    let e = Seq::<(Seq<char>, CoordView)>::empty();
                    assert(lookup_key(m@, "aliases"@) == Some(al));
                    assert(aliases_of(m@) == Some(alm@));
                    assert(lookup_key(tm@, "deps"@) == Some(d));
                    assert(am@[0].0->Key_0@ == key);
                    let ks = seq!["extra-deps"@, "replace-deps"@, "deps"@, "override-deps"@, "default-deps"@];
                    assert(ks[0].len() == 10 && ks[1].len() == 12 && ks[2].len() == 4 && ks[3].len() == 13
                        && ks[4].len() == 12);
                    assert(ks[1][0] != ks[4][0]);
                    assert forall|i: int, j: int| 0 <= i < j < 5 implies #[trigger] ks[i] != #[trigger] ks[j] by {
                        if i == 1 && j == 4 {
                            assert(ks[1][0] != ks[4][0]);
                        }
                    }
                    assert(am@[0].1 == d);
                    assert forall|i: int| 0 <= i < 5 implies #[trigger] lookup_key(am@, ks[i]) == (if ks[i] == key {
                        Some(d)
                    } else {
                        None::<EdnNode>
                    }) by {
                        assert(lookup_key(am@.drop_first(), ks[i]) is None);
                    }
                    let a1 = deps_under(e, am@, ks[0]);
                    let a2 = deps_under(a1, am@, ks[1]);
                    let a3 = deps_under(a2, am@, ks[2]);
                    let a4 = deps_under(a3, am@, ks[3]);
                    assert(lookup_key(am@, ks[0]) == (if ks[0] == key { Some(d) } else { None::<EdnNode> }));
                    assert(lookup_key(am@, ks[1]) == (if ks[1] == key { Some(d) } else { None::<EdnNode> }));
                    assert(lookup_key(am@, ks[2]) == (if ks[2] == key { Some(d) } else { None::<EdnNode> }));
                    assert(lookup_key(am@, ks[3]) == (if ks[3] == key { Some(d) } else { None::<EdnNode> }));
                    assert(lookup_key(am@, ks[4]) == (if ks[4] == key { Some(d) } else { None::<EdnNode> }));
                    assert(alias_map_deps(e, am@) == deps_into(e, d));
                    assert(aliases_deps(e, alm@) == aliases_deps(alias_map_deps(e, am@), alm@.drop_first()));
                }
            }
        }
    }
}

/// No entry occurs twice.
pub open spec fn no_dups(s: Seq<Seq<char>>) -> bool {
    forall|i: int, j: int| 0 <= i < j < s.len() ==> s[i] != s[j]
}

proof fn lemma_push_unique(out: Seq<Seq<char>>, p: Seq<char>)
    requires
        no_dups(out),
    ensures
        no_dups(push_unique(out, p)),
        forall|x: Seq<char>| out.contains(x) ==> push_unique(out, p).contains(x),
        push_unique(out, p).contains(p),
{
    if !out.contains(p) {
        let r = out.push(p);
        assert forall|x: Seq<char>| out.contains(x) implies r.contains(x) by {
            let i = choose|i: int| 0 <= i < out.len() && out[i] == x;
            assert(r[i] == x);
        }
        assert(r[out.len() as int] == p);
    }
}

proof fn lemma_paths_items_no_dups(
    out: Seq<Seq<char>>,
    items: Seq<EdnNode>,
    aliases: Option<Seq<(EdnNode, EdnNode)>>,
)
    requires
        no_dups(out),
    ensures
        no_dups(paths_items(out, items, aliases)),
    decreases (if aliases is Some { 1int } else { 0int }), items.len(),
{
    if items.len() > 0 {
        let next = match untag(items[0]) {
            EdnNode::Str(s) => push_unique(out, s@),
            EdnNode::Key(name) => match aliases {
                Some(al) => match lookup_key(al, name@) {
                    Some(p) => match untag(p) {
                        EdnNode::Vector(v) => paths_items(out, v@, None),
                        _ => out,
                    },
                    None => out,
                },
                None => out,
            },
            _ => out,
        };
        match untag(items[0]) {
            EdnNode::Str(s) => lemma_push_unique(out, s@),
            EdnNode::Key(name) => match aliases {
                Some(al) => match lookup_key(al, name@) {
                    Some(p) => match untag(p) {
                        EdnNode::Vector(v) => lemma_paths_items_no_dups(out, v@, None),
                        _ => {},
                    },
                    None => {},
                },
                None => {},
            },
            _ => {},
        }
        lemma_paths_items_no_dups(next, items.drop_first(), aliases);
    }
}

proof fn lemma_paths_into_no_dups(out: Seq<Seq<char>>, e: EdnNode, aliases: Option<Seq<(EdnNode, EdnNode)>>)
    requires
        no_dups(out),
    ensures
        no_dups(paths_into(out, e, aliases)),
{
    if let EdnNode::Vector(items) = untag(e) {
        lemma_paths_items_no_dups(out, items@, aliases);
    }
}

proof fn lemma_paths_under_no_dups(out: Seq<Seq<char>>, m: Seq<(EdnNode, EdnNode)>, key: Seq<char>)
    requires
        no_dups(out),
    ensures
        no_dups(paths_under(out, m, key)),
{
    if let Some(p) = lookup_key(m, key) {
        lemma_paths_into_no_dups(out, p, None);
    }
}

proof fn lemma_aliases_paths_no_dups(out: Seq<Seq<char>>, entries: Seq<(EdnNode, EdnNode)>)
    requires
        no_dups(out),
    ensures
        no_dups(aliases_paths(out, entries)),
    decreases entries.len(),
{
    if entries.len() > 0 {
        let next = match untag(entries[0].1) {
            EdnNode::Mapping(am) => alias_map_paths(out, am@),
            _ => out,
        };
        if let EdnNode::Mapping(am) = untag(entries[0].1) {
            let a = am@;
            lemma_paths_under_no_dups(out, a, "extra-paths"@);
            let p1 = paths_under(out, a, "extra-paths"@);
            lemma_paths_under_no_dups(p1, a, "replace-paths"@);
            let p2 = paths_under(p1, a, "replace-paths"@);
            lemma_paths_under_no_dups(p2, a, "paths"@);
        }
        lemma_aliases_paths_no_dups(next, entries.drop_first());
    }
}

/// A document's top-level paths, and its alias paths, each list a path at
/// most once, however often the EDN text repeats it.
pub proof fn law_interpret_paths_distinct(root: EdnNode)
    ensures
        no_dups(interpret(root).paths),
        no_dups(interpret(root).alias_paths),
{
    let empty = Seq::<Seq<char>>::empty();
    if let EdnNode::Mapping(m) = untag(root) {
        if let Some(p) = lookup_key(m@, "paths"@) {
            lemma_paths_into_no_dups(empty, p, aliases_of(m@));
        }
        if let Some(entries) = aliases_of(m@) {
            lemma_aliases_paths_no_dups(empty, entries);
        }
    }
}

// ---------------------------------------------------------------------------
// Reading.

/// The string stored under `:key` in a coordinate map.
fn get_str(m: &Vec<(EdnNode, EdnNode)>, key: &str) -> (r: Option<String>)
    ensures
        r.deep_view() == coord_str(m@, key@),
{
    match get_key(m, key) {
        Some(v) => match untag_node(v) {
            EdnNode::Str(s) => Some(s.clone()),
            _ => None,
        },
        None => None,
    }
}

fn parse_coord(e: &EdnNode) -> (r: DepCoord)
    ensures
        r@ == coord_of(*e),
{
    match untag_node(e) {
        EdnNode::Mapping(m) => {
            let git_sha = match get_str(m, "git/sha") {
                Some(s) => Some(s),
                None => get_str(m, "sha"),
            };
            let git_tag = match get_str(m, "git/tag") {
                Some(s) => Some(s),
                None => get_str(m, "tag"),
            };
            DepCoord {
                mvn_version: get_str(m, "mvn/version"),
                local_root: get_str(m, "local/root"),
                git_url: get_str(m, "git/url"),
                git_sha,
                git_tag,
            }
        },
        _ => DepCoord::empty(),
    }
}

fn parse_dep_map(e: &EdnNode, out: &mut DepMap)
    ensures
        final(out)@ == deps_into(old(out)@, *e),
{
    if let EdnNode::Mapping(entries) = untag_node(e) {
        let mut i: usize = 0;
        assert(entries@.skip(0) =~= entries@);
        while i < entries.len()
            invariant
                i <= entries.len(),
                deps_into(old(out)@, *e) == deps_fold(out@, entries@.skip(i as int)),
            decreases entries.len() - i,
        {
            assert(entries@.skip(i as int).drop_first() =~= entries@.skip(i + 1));
            assert(entries@.skip(i as int)[0] == entries@[i as int]);
            let name = match untag_node(&entries[i].0) {
                EdnNode::Symbol(s) => Some(s.clone()),
                EdnNode::Str(s) => Some(s.clone()),
                _ => None,
            };
            if let Some(name) = name {
                let coord = parse_coord(&entries[i].1);
                out.insert(name, coord);
            }
            i = i + 1;
        }
    }
}

/// Parse a `:paths`-style vector. String entries are collected directly;
/// keyword entries name aliases whose value is a vector of paths
/// (`{:paths [:clj-paths] :aliases {:clj-paths ["src/clj"]}}`).
fn parse_paths(e: &EdnNode, aliases: Option<&Vec<(EdnNode, EdnNode)>>, out: &mut Vec<String>)
    ensures
        final(out).deep_view() == paths_into(
            old(out).deep_view(),
            *e,
            match aliases {
                Some(a) => Some(a@),
                None => None,
            },
        ),
    decreases (if aliases is Some { 1int } else { 0int }),
{
    let ghost al = match aliases {
        Some(a) => Some(a@),
        None => None::<Seq<(EdnNode, EdnNode)>>,
    };
    if let EdnNode::Vector(items) = untag_node(e) {
        let mut i: usize = 0;
        assert(items@.skip(0) =~= items@);
        while i < items.len()
            invariant
                i <= items.len(),
                al == match aliases {
                    Some(a) => Some(a@),
                    None => None::<Seq<(EdnNode, EdnNode)>>,
                },
                untag(*e) == EdnNode::Vector(*items),
                paths_into(old(out).deep_view(), *e, al) == paths_items(
                    out.deep_view(),
                    items@.skip(i as int),
                    al,
                ),
            decreases items.len() - i,
        {
            assert(items@.skip(i as int).drop_first() =~= items@.skip(i + 1));
            assert(items@.skip(i as int)[0] == items@[i as int]);
            match untag_node(&items[i]) {
                EdnNode::Str(s) => {
                    if !vec_contains_str(out, s.as_str()) {
                        let ghost before = out.deep_view();
                        out.push(s.clone());
                        assert(out.deep_view() =~= before.push(s@));
                    }
                },
                EdnNode::Key(name) => {
                    if let Some(al_map) = aliases {
                        if let Some(p) = get_key(al_map, name.as_str()) {
                            parse_paths(p, None, out);
                        }
                    }
                },
                _ => {},
            }
            i = i + 1;
        }
    }
}

impl DepsEdn {
    /// The document with nothing in it.
    pub fn empty() -> (r: DepsEdn)
        ensures
            r@ == empty_doc(),
    {
        let r = DepsEdn {
            paths: Vec::new(),
            deps: DepMap::new(),
            alias_deps: DepMap::new(),
            alias_paths: Vec::new(),
        };
        assert(r.paths.deep_view() =~= Seq::<Seq<char>>::empty());
        assert(r.alias_paths.deep_view() =~= Seq::<Seq<char>>::empty());
        r
    }

    /// Interprets a document's top-level EDN value. A value that is not a
    /// map (e.g. an empty file) is an empty configuration.
    pub fn from_edn(root: &EdnNode) -> (r: DepsEdn)
        ensures
            r@ == interpret(*root),
    {
        let mut doc = DepsEdn::empty();
        let root_map = match untag_node(root) {
            EdnNode::Mapping(m) => m,
            _ => {
                return doc;
            },
        };
        let ghost m = root_map@;
        let ghost al = aliases_of(m);
        if let Some(deps) = get_key(root_map, "deps") {
            parse_dep_map(deps, &mut doc.deps);
        }
        let aliases: Option<&Vec<(EdnNode, EdnNode)>> = match get_key(root_map, "aliases") {
            Some(a) => match untag_node(a) {
                EdnNode::Mapping(am) => Some(am),
                _ => None,
            },
            None => None,
        };
        assert(al == match aliases {
            Some(a) => Some(a@),
            None => None::<Seq<(EdnNode, EdnNode)>>,
        });
        if let Some(paths) = get_key(root_map, "paths") {
            parse_paths(paths, aliases, &mut doc.paths);
        }
        let ghost deps_v = doc.deps@;
        let ghost paths_v = doc.paths.deep_view();
        assert(deps_v == interpret(*root).deps);
        assert(paths_v == interpret(*root).paths);
        if let Some(aliases) = aliases {
            let mut i: usize = 0;
            assert(aliases@.skip(0) =~= aliases@);
            while i < aliases.len()
                invariant
                    i <= aliases.len(),
                    doc.deps@ == deps_v,
                    doc.paths.deep_view() == paths_v,
                    aliases_deps(Seq::empty(), aliases@) == aliases_deps(
                        doc.alias_deps@,
                        aliases@.skip(i as int),
                    ),
                    aliases_paths(Seq::empty(), aliases@) == aliases_paths(
                        doc.alias_paths.deep_view(),
                        aliases@.skip(i as int),
                    ),
                decreases aliases.len() - i,
            {
                assert(aliases@.skip(i as int).drop_first() =~= aliases@.skip(i + 1));
                assert(aliases@.skip(i as int)[0] == aliases@[i as int]);
                if let EdnNode::Mapping(alias_map) = untag_node(&aliases[i].1) {
                    if let Some(d) = get_key(alias_map, "extra-deps") {
                        parse_dep_map(d, &mut doc.alias_deps);
                    }
                    if let Some(d) = get_key(alias_map, "replace-deps") {
                        parse_dep_map(d, &mut doc.alias_deps);
                    }
                    if let Some(d) = get_key(alias_map, "deps") {
                        parse_dep_map(d, &mut doc.alias_deps);
                    }
                    if let Some(d) = get_key(alias_map, "override-deps") {
                        parse_dep_map(d, &mut doc.alias_deps);
                    }
                    if let Some(d) = get_key(alias_map, "default-deps") {
                        parse_dep_map(d, &mut doc.alias_deps);
                    }
                    if let Some(p) = get_key(alias_map, "extra-paths") {
                        parse_paths(p, None, &mut doc.alias_paths);
                    }
                    if let Some(p) = get_key(alias_map, "replace-paths") {
                        parse_paths(p, None, &mut doc.alias_paths);
                    }
                    if let Some(p) = get_key(alias_map, "paths") {
                        parse_paths(p, None, &mut doc.alias_paths);
                    }
                }
                i = i + 1;
            }
            assert(aliases@.skip(aliases.len() as int) =~= Seq::<(EdnNode, EdnNode)>::empty());
        }
        assert(doc@ == interpret(*root));
        doc
    }

    /// Parses a manifest's text. Blank text is an empty configuration; text
    /// that is not EDN is an error carrying the reader's account of why.
    pub fn parse(content: &str) -> (r: Result<DepsEdn, DepsEdnError>)
        ensures
            r matches Ok(d) ==> parse_result(content@) == Ok::<DepsView, Seq<char>>(d@),
            r matches Err(DepsEdnError::InvalidEdn(m)) ==> parse_result(content@) == Err::<
                DepsView,
                Seq<char>,
            >(m@),
    {
        if blank(content) {
            return Ok(DepsEdn::empty());
        }
        match read_edn(content) {
            Ok(root) => Ok(DepsEdn::from_edn(&root)),
            Err(m) => Err(DepsEdnError::InvalidEdn(m)),
        }
    }
}

impl DepsEdn {
    /// All `:local/root` dependencies as `(lib, path, from_alias)` tuples.
    /// Top-level `:deps` come first, then alias-scoped deps not already seen.
    pub fn local_deps(&self, include_aliases: bool) -> (r: Vec<(&str, &str, bool)>)
        ensures
            r@.map_values(|t: (&str, &str, bool)| triple_view(t)) == spec_local_deps(self@, include_aliases),
    {
        let mut out: Vec<(&str, &str, bool)> = Vec::new();
        let n = self.deps.len();
        let mut i: usize = 0;
        while i < n
            invariant
                n == self.deps@.len(),
                i <= n,
                out@.map_values(|t: (&str, &str, bool)| triple_view(t)) == local_top(self.deps@.take(i as int)),
            decreases n - i,
        {
            let (lib, coord) = self.deps.entry(i);
            assert(self.deps@.take(i + 1).drop_last() =~= self.deps@.take(i as int));
            let ghost before = out@;
            if let Some(root) = &coord.local_root {
                out.push((lib.as_str(), root.as_str(), false));
            }
            assert(out@.map_values(|t: (&str, &str, bool)| triple_view(t)) =~= local_top(self.deps@.take(i + 1)));
            i = i + 1;
        }
        assert(self.deps@.take(n as int) =~= self.deps@);
        let ghost top = out@.map_values(|t: (&str, &str, bool)| triple_view(t));
        if include_aliases {
            let m = self.alias_deps.len();
            let mut j: usize = 0;
            while j < m
                invariant
                    m == self.alias_deps@.len(),
                    j <= m,
                    out@.map_values(|t: (&str, &str, bool)| triple_view(t)) == top + local_alias(
                        self.alias_deps@.take(j as int),
                        self.deps@,
                    ),
                decreases m - j,
            {
                let (lib, coord) = self.alias_deps.entry(j);
                assert(self.alias_deps@.take(j + 1).drop_last() =~= self.alias_deps@.take(j as int));
                assert(self.alias_deps@.take(j + 1).last() == self.alias_deps@[j as int]);
                let ghost prev = local_alias(self.alias_deps@.take(j as int), self.deps@);
                let ghost before = out@;
                if let Some(root) = &coord.local_root {
                    let seen = match self.deps.get(lib.as_str()) {
                        Some(c) => c.is_local(),
                        None => false,
                    };
                    assert(seen == is_local_in(self.deps@, lib@));
                    if !seen {
                        out.push((lib.as_str(), root.as_str(), true));
                        assert(local_alias(self.alias_deps@.take(j + 1), self.deps@) == prev + seq![(lib@, root@, true)]);
                        assert(out@.map_values(|t: (&str, &str, bool)| triple_view(t)) =~= before.map_values(|t: (&str, &str, bool)| triple_view(t)).push((lib@, root@, true)));
                        assert(top + (prev + seq![(lib@, root@, true)]) =~= (top + prev).push((lib@, root@, true)));
                    } else {
                        assert(local_alias(self.alias_deps@.take(j + 1), self.deps@) == prev + Seq::<(Seq<char>, Seq<char>, bool)>::empty());
                        assert(prev + Seq::<(Seq<char>, Seq<char>, bool)>::empty() =~= prev);
                    }
                } else {
                    assert(local_alias(self.alias_deps@.take(j + 1), self.deps@) == prev + Seq::<(Seq<char>, Seq<char>, bool)>::empty());
                    assert(prev + Seq::<(Seq<char>, Seq<char>, bool)>::empty() =~= prev);
                }
                assert(out@.map_values(|t: (&str, &str, bool)| triple_view(t)) =~= top + local_alias(
                    self.alias_deps@.take(j + 1),
                    self.deps@,
                ));
                j = j + 1;
            }
            assert(self.alias_deps@.take(m as int) =~= self.alias_deps@);
        } else {
            assert(out@.map_values(|t: (&str, &str, bool)| triple_view(t)) =~= top + Seq::empty());
        }
        out
    }
}

impl Default for DepsEdn {
    fn default() -> (r: DepsEdn)
        ensures
            r@ == empty_doc(),
    {
        DepsEdn::empty()
    }
}

} // verus!
