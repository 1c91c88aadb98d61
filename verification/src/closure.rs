//! Content-addressable view of a project's transitive `:local/root`
//! closure: which manifests and dependency source files go into task hashes,
//! and under which keys.
//!
//! The walk over the closure reads the filesystem, so it is driven from
//! outside: [`ClosureWalk`] decides which root to visit next, what each
//! manifest read contributes, which source dirs to hash, and what each
//! source file contributes; its driver performs the reads.
use vstd::prelude::*;
use sha2::{Digest, Sha256};
use crate::deps_edn::{doc_wf, law_local_deps_unique, parse_result, spec_local_deps, DepsEdn, DepsEdnError, DepsView};
use crate::paths::{dot, normal_path, rel_source};
pub use crate::paths::{normalize_path, normalize_rel_source};
use crate::sorted::{assoc_insert, insert_index, lemma_insert_index, set_insert, SortedMap, StrSet};
use crate::text::{chars_of, push_char, str_eq, vec_contains_str};

verus! {

/// The manifest file names, in the order they are read.
pub const MANIFEST_NAMES: [&'static str; 2] = ["deps.edn", "bb.edn"];

/// Build-output directories that may sit inside a `:paths` dir (bb.edn
/// projects with `:paths ["."]`, generated-source setups). Their contents
/// are machine-produced churn, never classpath source-of-truth.
pub const SKIPPED_DIR_NAMES: [&'static str; 2] = ["target", "node_modules"];

// ---------------------------------------------------------------------------
// Content hashes.

/// What `sha2`'s SHA-256 computes for the given bytes.
pub uninterp spec fn sha256(data: Seq<u8>) -> Seq<u8>;

/// SHA-256 of the bytes, with `sha2::Sha256::digest`. The contract claims
/// that the digest is the one named by [`sha256`] and that it has 32
/// bytes, the output size of SHA-256.
#[verifier::external_body]
fn sha256_digest(data: &[u8]) -> (r: Vec<u8>)
    ensures
        r@ == sha256(data@),
        r@.len() == 32,
{
    Sha256::digest(data).to_vec()
}

/// The lowercase hex digit of a value below 16.
pub open spec fn hex_digit(v: int) -> char {
    if v < 10 {
        (('0' as int) + v) as char
    } else {
        (('a' as int) + v - 10) as char
    }
}

/// Two lowercase hex digits per byte, high nibble first.
pub open spec fn hex_lower(bytes: Seq<u8>) -> Seq<char>
    decreases bytes.len(),
{
    if bytes.len() == 0 {
        Seq::empty()
    } else {
        hex_lower(bytes.drop_last()) + seq![
            hex_digit(bytes.last() as int / 16),
            hex_digit(bytes.last() as int % 16),
        ]
    }
}

/// A lowercase hex digit.
pub open spec fn is_hex_char(c: char) -> bool {
    ('0' <= c && c <= '9') || ('a' <= c && c <= 'f')
}

/// 64 lowercase hex digits: the text of a SHA-256 digest.
pub open spec fn is_hex64(s: Seq<char>) -> bool {
    s.len() == 64 && forall|i: int| 0 <= i < s.len() ==> is_hex_char(#[trigger] s[i])
}

fn hex_char(v: u8) -> (c: char)
    requires
        v < 16,
    ensures
        c == hex_digit(v as int),
        is_hex_char(c),
{
    let table: [char; 16] = ['0', '1', '2', '3', '4', '5', '6', '7', '8', '9', 'a', 'b', 'c', 'd', 'e', 'f'];
    let c = table[v as usize];
    assert(c == hex_digit(v as int)) by {
        assert(table@ =~= seq!['0', '1', '2', '3', '4', '5', '6', '7', '8', '9', 'a', 'b', 'c', 'd', 'e', 'f']);
    }
    c
}

proof fn lemma_hex_lower_shape(bytes: Seq<u8>)
    ensures
        hex_lower(bytes).len() == 2 * bytes.len(),
        forall|i: int| 0 <= i < hex_lower(bytes).len() ==> is_hex_char(#[trigger] hex_lower(bytes)[i]),
    decreases bytes.len(),
{
    if bytes.len() > 0 {
        lemma_hex_lower_shape(bytes.drop_last());
        let hi = bytes.last() as int / 16;
        let lo = bytes.last() as int % 16;
        assert(0 <= hi < 16 && 0 <= lo < 16);
        let h = hex_lower(bytes);
        let h0 = hex_lower(bytes.drop_last());
        assert forall|i: int| 0 <= i < h.len() implies is_hex_char(#[trigger] h[i]) by {
            if i < h0.len() {
                assert(h[i] == h0[i]);
            }
        }
    }
}

/// Lowercase hex SHA-256 of raw bytes.
pub fn sha256_hex_bytes(content: &[u8]) -> (r: String)
    ensures
        r@ == hex_lower(sha256(content@)),
        is_hex64(r@),
{
    let digest = sha256_digest(content);
    let mut out = String::new();
    let mut i: usize = 0;
    while i < digest.len()
        invariant
            i <= digest.len(),
            out@ == hex_lower(digest@.take(i as int)),
        decreases digest.len() - i,
    {
        let byte = digest[i];
        push_char(&mut out, hex_char(byte / 16));
        push_char(&mut out, hex_char(byte % 16));
        assert(digest@.take(i + 1).drop_last() =~= digest@.take(i as int));
        assert(digest@.take(i + 1).last() == byte);
        assert(out@ =~= hex_lower(digest@.take(i + 1)));
        i = i + 1;
    }
    assert(digest@.take(digest.len() as int) =~= digest@);
    proof {
        lemma_hex_lower_shape(digest@);
    }
    out
}

/// Lowercase hex SHA-256 of a text's UTF-8 bytes.
pub fn sha256_hex(content: &str) -> (r: String)
    ensures
        r@ == hex_lower(sha256(vstd::utf8::encode_utf8(content@))),
        is_hex64(r@),
{
    sha256_hex_bytes(content.as_bytes())
}

// ---------------------------------------------------------------------------
// Joining paths.

/// `a` extended by `b`, as `Path::join` does on `/`-separated paths: an
/// absolute `b` replaces `a`; otherwise a `/` goes between them unless `a`
/// is empty or already ends in one.
pub open spec fn join_path(a: Seq<char>, b: Seq<char>) -> Seq<char> {
    if b.len() > 0 && b[0] == '/' {
        b
    } else if a.len() == 0 || a.last() == '/' {
        a + b
    } else {
        a + seq!['/'] + b
    }
}

/// Joins two paths, as `Path::join` does.
pub fn join(a: &str, b: &str) -> (r: String)
    ensures
        r@ == join_path(a@, b@),
{
    let av = chars_of(a);
    let bv = chars_of(b);
    if bv.len() > 0 && bv[0] == '/' {
        return b.to_owned();
    }
    let mut out = a.to_owned();
    if !(av.len() == 0 || av[av.len() - 1] == '/') {
        push_char(&mut out, '/');
    }
    out.append(b);
    out
}

// ---------------------------------------------------------------------------
// The walk over the closure.

/// What a manifest file turned out to hold.
#[derive(Clone, Debug, PartialEq)]
pub enum ManifestRead {
    /// No such file.
    Missing,
    /// The file exists but could not be read.
    Unreadable,
    /// The file's text.
    Content(String),
}

/// Why the walk stopped.
#[derive(Clone, Debug, PartialEq)]
pub enum ClosureError {
    /// A manifest is not valid EDN.
    InvalidManifest { path: String, error: DepsEdnError },
}

/// Content-addressable view of a project's transitive `:local/root` closure.
#[derive(Clone, Debug, PartialEq)]
pub struct ClosureContents {
    /// `manifest path -> sha256(content)`, with `unavailable`/`unreadable`
    /// markers for roots and files that cannot be read.
    pub manifests: SortedMap<String>,
    /// `dependency source file -> sha256(content)`: every file under each
    /// DEPENDENCY project's top-level `:paths` (tools.deps default `["src"]`
    /// when undeclared). The origin project's own sources are never
    /// collected: the task's `inputs` own those.
    pub sources: SortedMap<String>,
}

impl Default for ClosureContents {
    /// Nothing collected yet.
    fn default() -> (r: ClosureContents)
        ensures
            r.manifests@.len() == 0,
            r.sources@.len() == 0,
    {
        ClosureContents { manifests: SortedMap::new(), sources: SortedMap::new() }
    }
}

/// The marker for a file that exists but cannot be read.
pub open spec fn unreadable_marker() -> Seq<char> {
    "unreadable"@
}

/// The marker for a root with no readable manifest.
pub open spec fn unavailable_marker() -> Seq<char> {
    "unavailable"@
}

/// Every value is a content hash or one of the two markers.
pub open spec fn hash_values(m: Seq<(Seq<char>, Seq<char>)>) -> bool {
    forall|i: int|
        0 <= i < m.len() ==> {
            let v = (#[trigger] m[i]).1;
            is_hex64(v) || v == unreadable_marker() || v == unavailable_marker()
        }
}

proof fn lemma_hash_values_insert(m: Seq<(Seq<char>, Seq<char>)>, k: Seq<char>, v: Seq<char>)
    requires
        hash_values(m),
        is_hex64(v) || v == unreadable_marker() || v == unavailable_marker(),
    ensures
        hash_values(assoc_insert(m, k, v)),
{
    let r = assoc_insert(m, k, v);
    crate::sorted::lemma_insert_index(crate::sorted::keys_of(m), k, 0);
    let j = crate::sorted::insert_index(crate::sorted::keys_of(m), k, 0);
    assert(0 <= j <= m.len());
    assert forall|i: int| 0 <= i < r.len() implies {
        let w = (#[trigger] r[i]).1;
        is_hex64(w) || w == unreadable_marker() || w == unavailable_marker()
    } by {
        if j < m.len() && m[j].0 == k {
            if i != j {
                assert(r[i] == m[i]);
            }
        } else {
            if i < j {
                assert(r[i] == m[i]);
            } else if i > j {
                assert(r[i] == m[i - 1]);
            }
        }
    }
}

/// The state of a walk, as characters.
pub struct WalkView {
    pub origin: Seq<char>,
    pub include_alias_deps: bool,
    pub include_dep_sources: bool,
    /// Roots still to visit; the last one is visited first.
    pub queue: Seq<Seq<char>>,
    /// Roots visited so far, normalized.
    pub visited: Seq<Seq<char>>,
    pub manifests: Seq<(Seq<char>, Seq<char>)>,
    pub sources: Seq<(Seq<char>, Seq<char>)>,
    /// Whether the current root has a manifest.
    pub found_manifest: bool,
    /// Whether the current root has a `deps.edn`.
    pub has_deps_edn: bool,
    /// The union of the current root's top-level `:paths`.
    pub source_paths: Seq<Seq<char>>,
}

/// A walk over the transitive `:local/root` closure of a project, visiting
/// each root once.
pub struct ClosureWalk {
    origin: String,
    include_alias_deps: bool,
    include_dep_sources: bool,
    queue: Vec<String>,
    visited: StrSet,
    contents: ClosureContents,
    found_manifest: bool,
    has_deps_edn: bool,
    source_paths: Vec<String>,
}

impl View for ClosureWalk {
    type V = WalkView;

    closed spec fn view(&self) -> WalkView {
        WalkView {
            origin: self.origin@,
            include_alias_deps: self.include_alias_deps,
            include_dep_sources: self.include_dep_sources,
            queue: self.queue.deep_view(),
            visited: self.visited@,
            manifests: self.contents.manifests@,
            sources: self.contents.sources@,
            found_manifest: self.found_manifest,
            has_deps_edn: self.has_deps_edn,
            source_paths: self.source_paths.deep_view(),
        }
    }
}

/// The roots a manifest's local deps lead to, in order, appended to `queue`.
pub open spec fn queue_deps(
    queue: Seq<Seq<char>>,
    root: Seq<char>,
    deps: Seq<(Seq<char>, Seq<char>, bool)>,
) -> Seq<Seq<char>>
    decreases deps.len(),
{
    if deps.len() == 0 {
        queue
    } else {
        queue_deps(queue, root, deps.drop_last()).push(join_path(root, deps.last().1))
    }
}

proof fn lemma_queue_deps_len(queue: Seq<Seq<char>>, root: Seq<char>, deps: Seq<(Seq<char>, Seq<char>, bool)>)
    ensures
        queue_deps(queue, root, deps).len() == queue.len() + deps.len(),
    decreases deps.len(),
{
    if deps.len() > 0 {
        lemma_queue_deps_len(queue, root, deps.drop_last());
    }
}

proof fn lemma_queue_deps_concat(
    queue: Seq<Seq<char>>,
    root: Seq<char>,
    a: Seq<(Seq<char>, Seq<char>, bool)>,
    b: Seq<(Seq<char>, Seq<char>, bool)>,
)
    ensures
        queue_deps(queue, root, a + b).take(queue_deps(queue, root, a).len() as int) == queue_deps(queue, root, a),
    decreases b.len(),
{
    lemma_queue_deps_len(queue, root, a);
    if b.len() == 0 {
        assert(a + b =~= a);
        assert(queue_deps(queue, root, a).take(queue_deps(queue, root, a).len() as int) =~= queue_deps(queue, root, a));
    } else {
        assert((a + b).drop_last() =~= a + b.drop_last());
        lemma_queue_deps_concat(queue, root, a, b.drop_last());
        lemma_queue_deps_len(queue, root, a + b.drop_last());
        let big = queue_deps(queue, root, a + b.drop_last());
        let n = queue_deps(queue, root, a).len() as int;
        assert(queue_deps(queue, root, a + b) == big.push(join_path(root, (a + b).last().1)));
        assert(big.push(join_path(root, (a + b).last().1)).take(n) =~= big.take(n));
    }
}

/// Scanning alias deps only adds roots: what a manifest queues without the
/// aliases is a prefix of what it queues with them.
pub proof fn law_alias_queue_prefix(queue: Seq<Seq<char>>, root: Seq<char>, d: DepsView)
    requires
        doc_wf(d),
    ensures
        queue_deps(queue, root, spec_local_deps(d, true)).take(
            queue_deps(queue, root, spec_local_deps(d, false)).len() as int,
        ) == queue_deps(queue, root, spec_local_deps(d, false)),
{
    law_local_deps_unique(d);
    let all = spec_local_deps(d, true);
    let top = spec_local_deps(d, false);
    let rest = all.skip(top.len() as int);
    assert(all =~= top + rest);
    lemma_queue_deps_concat(queue, root, top, rest);
}

/// `out` with each of `paths` appended unless already present.
pub open spec fn union_paths(out: Seq<Seq<char>>, paths: Seq<Seq<char>>) -> Seq<Seq<char>>
    decreases paths.len(),
{
    if paths.len() == 0 {
        out
    } else {
        let u = union_paths(out, paths.drop_last());
        if u.contains(paths.last()) {
            u
        } else {
            u.push(paths.last())
        }
    }
}

/// The source dirs of a finished root: its declared top-level paths, or
/// `src` for a `deps.edn` root that declares none, each under the root.
pub open spec fn root_source_dirs(root: Seq<char>, paths: Seq<Seq<char>>, has_deps_edn: bool) -> Seq<Seq<char>> {
    let ps = if paths.len() == 0 && has_deps_edn {
        seq!["src"@]
    } else {
        paths
    };
    ps.map_values(|p: Seq<char>| join_path(root, p))
}

/// The dirs a finished dependency root hands out to hash are exactly its
/// declared top-level paths under the root, whichever of its manifests
/// (`deps.edn` or `bb.edn`) declared them; only a root with a `deps.edn` that
/// declares none falls back to `src`, and a `bb.edn`-only root that declares
/// none hashes nothing.
pub proof fn law_root_source_dirs(root: Seq<char>, paths: Seq<Seq<char>>, has_deps_edn: bool)
    ensures
        paths.len() > 0 ==> forall|b: bool| #[trigger] root_source_dirs(root, paths, b) == root_source_dirs(root, paths, has_deps_edn),
        paths.len() > 0 ==> root_source_dirs(root, paths, has_deps_edn).len() == paths.len(),
        paths.len() > 0 ==> forall|i: int| 0 <= i < paths.len() ==> #[trigger] root_source_dirs(root, paths, has_deps_edn)[i] == join_path(root, paths[i]),
        paths.len() == 0 && has_deps_edn ==> root_source_dirs(root, paths, has_deps_edn) == seq![join_path(root, "src"@)],
        paths.len() == 0 && !has_deps_edn ==> root_source_dirs(root, paths, has_deps_edn).len() == 0,
{
    if paths.len() == 0 && has_deps_edn {
        assert(seq!["src"@].map_values(|p: Seq<char>| join_path(root, p)) =~= seq![join_path(root, "src"@)]);
    }
}

/// Collecting a manifest's paths keeps every path collected before and adds
/// every path it declares, and nothing else: a root's paths are the union
/// over all its manifests.
pub proof fn law_union_paths_collects(out: Seq<Seq<char>>, paths: Seq<Seq<char>>)
    ensures
        forall|p: Seq<char>| #[trigger] union_paths(out, paths).contains(p) <==> out.contains(p) || paths.contains(p),
    decreases paths.len(),
{
    if paths.len() > 0 {
        law_union_paths_collects(out, paths.drop_last());
        let u = union_paths(out, paths.drop_last());
        assert forall|p: Seq<char>| #[trigger] union_paths(out, paths).contains(p) <==> out.contains(p) || paths.contains(p) by {
            if paths.drop_last().contains(p) {
                let j = choose|j: int| 0 <= j < paths.drop_last().len() && paths.drop_last()[j] == p;
                assert(paths[j] == p);
            }
            if paths.contains(p) && p != paths.last() {
                let j = choose|j: int| 0 <= j < paths.len() && paths[j] == p;
                assert(j < paths.len() - 1);
                assert(paths.drop_last()[j] == p);
            }
            if !u.contains(paths.last()) {
                if u.push(paths.last()).contains(p) && p != paths.last() {
                    let j = choose|j: int| 0 <= j < u.push(paths.last()).len() && u.push(paths.last())[j] == p;
                    assert(u[j] == p);
                }
                if u.contains(p) {
                    let j = choose|j: int| 0 <= j < u.len() && u[j] == p;
                    assert(u.push(paths.last())[j] == p);
                }
                assert(u.push(paths.last())[u.len() as int] == paths.last());
            }
            assert(paths[paths.len() - 1] == paths.last());
        }
    }
}

/// The first root in the queue not yet visited, popping from the end.
pub open spec fn next_unvisited(queue: Seq<Seq<char>>, visited: Seq<Seq<char>>) -> Option<(Seq<char>, Seq<Seq<char>>)>
    decreases queue.len(),
{
    if queue.len() == 0 {
        None
    } else {
        let r = normal_path(queue.last());
        if visited.contains(r) {
            next_unvisited(queue.drop_last(), visited)
        } else {
            Some((r, queue.drop_last()))
        }
    }
}

/// Marking a root visited keeps every root visited before, and the root
/// itself stays visited. With [`law_next_root_unvisited`], and since every
/// other step leaves the visited roots alone, a walk hands out each
/// normalized root at most once, however it is driven.
pub proof fn law_visited_grows(visited: Seq<Seq<char>>, root: Seq<char>)
    ensures
        set_insert(visited, root).contains(root),
        forall|x: Seq<char>| visited.contains(x) ==> #[trigger] set_insert(visited, root).contains(x),
{
    lemma_insert_index(visited, root, 0);
    let i = insert_index(visited, root, 0);
    let r = set_insert(visited, root);
    if i < visited.len() && visited[i] == root {
        assert(r[i] == root);
    } else {
        assert(r[i] == root);
        assert forall|x: Seq<char>| visited.contains(x) implies #[trigger] r.contains(x) by {
            let j = choose|j: int| 0 <= j < visited.len() && visited[j] == x;
            if j < i {
                assert(r[j] == x);
            } else {
                assert(r[j + 1] == x);
            }
        }
    }
}

/// The walk visits each root once: the root it hands out next is one it
/// has not visited yet.
pub proof fn law_next_root_unvisited(queue: Seq<Seq<char>>, visited: Seq<Seq<char>>)
    ensures
        next_unvisited(queue, visited) matches Some((root, _)) ==> !visited.contains(root),
    decreases queue.len(),
{
    if queue.len() > 0 && visited.contains(normal_path(queue.last())) {
        law_next_root_unvisited(queue.drop_last(), visited);
    }
}

/// What holds of a walk after every step, whatever steps it is driven
/// through from its start: every hash value is a content hash or a marker,
/// and no source is recorded when dependency sources are not hashed.
pub open spec fn walk_ok(w: WalkView) -> bool {
    &&& hash_values(w.manifests)
    &&& hash_values(w.sources)
    &&& !w.include_dep_sources ==> w.sources.len() == 0
}

/// One step of a walk, as the contracts of its steps give it: the settings
/// stay, [`walk_ok`] is kept, and the visited roots stay the same unless
/// the step hands out a root, which was not visited before and is visited
/// after.
pub open spec fn walk_step(a: WalkView, b: WalkView, handed: Option<Seq<char>>) -> bool {
    &&& b.origin == a.origin
    &&& b.include_alias_deps == a.include_alias_deps
    &&& b.include_dep_sources == a.include_dep_sources
    &&& walk_ok(a) ==> walk_ok(b)
    &&& match handed {
        Some(root) => !a.visited.contains(root) && b.visited == set_insert(a.visited, root),
        None => b.visited == a.visited,
    }
}

proof fn lemma_trace_visited_grows(ws: Seq<WalkView>, handed: Seq<Option<Seq<char>>>, i: int, k: int)
    requires
        ws.len() == handed.len() + 1,
        forall|j: int| 0 <= j < handed.len() ==> walk_step(#[trigger] ws[j], ws[j + 1], handed[j]),
        0 <= i <= k < ws.len(),
    ensures
        forall|x: Seq<char>| ws[i].visited.contains(x) ==> #[trigger] ws[k].visited.contains(x),
    decreases k - i,
{
    if i < k {
        lemma_trace_visited_grows(ws, handed, i, k - 1);
        assert(walk_step(ws[k - 1], ws[k], handed[k - 1]));
        if let Some(r) = handed[k - 1] {
            law_visited_grows(ws[k - 1].visited, r);
        }
    }
}

proof fn lemma_trace_ok(ws: Seq<WalkView>, handed: Seq<Option<Seq<char>>>, k: int)
    requires
        ws.len() == handed.len() + 1,
        walk_ok(ws[0]),
        forall|j: int| 0 <= j < handed.len() ==> walk_step(#[trigger] ws[j], ws[j + 1], handed[j]),
        0 <= k < ws.len(),
    ensures
        walk_ok(ws[k]),
        ws[k].include_dep_sources == ws[0].include_dep_sources,
        ws[k].include_alias_deps == ws[0].include_alias_deps,
        ws[k].origin == ws[0].origin,
    decreases k,
{
    if k > 0 {
        lemma_trace_ok(ws, handed, k - 1);
        assert(walk_step(ws[k - 1], ws[k], handed[k - 1]));
    }
}

/// A whole walk, however it is driven: for the views `ws` of a walk after
/// each of its steps, starting from a fresh walk, every view holds only
/// content hashes and markers and keeps the settings, no source is ever
/// recorded when dependency sources are not hashed, the roots the walk
/// hands out are pairwise distinct (each root is processed at most once),
/// and every one of them is visited at the end.
pub proof fn law_walk_trace(ws: Seq<WalkView>, handed: Seq<Option<Seq<char>>>)
    requires
        ws.len() == handed.len() + 1,
        walk_ok(ws[0]),
        forall|j: int| 0 <= j < handed.len() ==> walk_step(#[trigger] ws[j], ws[j + 1], handed[j]),
    ensures
        forall|k: int| 0 <= k < ws.len() ==> walk_ok(#[trigger] ws[k]) && ws[k].include_dep_sources == ws[0].include_dep_sources,
        !ws[0].include_dep_sources ==> forall|k: int| 0 <= k < ws.len() ==> (#[trigger] ws[k]).sources.len() == 0,
        forall|i: int, j: int|
            0 <= i < j < handed.len() && handed[i] is Some && handed[j] is Some ==> #[trigger] handed[i] != #[trigger] handed[j],
        forall|i: int| 0 <= i < handed.len() && handed[i] is Some ==> ws.last().visited.contains(#[trigger] handed[i]->0),
{
    assert forall|k: int| 0 <= k < ws.len() implies walk_ok(#[trigger] ws[k]) && ws[k].include_dep_sources == ws[0].include_dep_sources by {
        lemma_trace_ok(ws, handed, k);
    }
    assert forall|i: int| 0 <= i < handed.len() && handed[i] is Some implies ws.last().visited.contains(#[trigger] handed[i]->0) by {
        let r = handed[i]->0;
        assert(walk_step(ws[i], ws[i + 1], handed[i]));
        law_visited_grows(ws[i].visited, r);
        lemma_trace_visited_grows(ws, handed, i + 1, ws.len() - 1);
    }
    assert forall|i: int, j: int|
        0 <= i < j < handed.len() && handed[i] is Some && handed[j] is Some implies #[trigger] handed[i] != #[trigger] handed[j] by {
        let r = handed[i]->0;
        assert(walk_step(ws[i], ws[i + 1], handed[i]));
        law_visited_grows(ws[i].visited, r);
        lemma_trace_visited_grows(ws, handed, i + 1, j);
        assert(walk_step(ws[j], ws[j + 1], handed[j]));
        assert(ws[j].visited.contains(r));
    }
}

impl ClosureWalk {
    /// A walk that starts at the project root.
    pub fn new(project_root: &str, include_alias_deps: bool, include_dep_sources: bool) -> (r: ClosureWalk)
        ensures
            r@.origin == normal_path(project_root@),
            r@.queue == seq![normal_path(project_root@)],
            r@.visited == Seq::<Seq<char>>::empty(),
            r@.manifests == Seq::<(Seq<char>, Seq<char>)>::empty(),
            r@.sources == Seq::<(Seq<char>, Seq<char>)>::empty(),
            r@.include_alias_deps == include_alias_deps,
            r@.include_dep_sources == include_dep_sources,
            !r@.found_manifest,
            !r@.has_deps_edn,
            r@.source_paths == Seq::<Seq<char>>::empty(),
            walk_ok(r@),
    {
        let origin = normalize_path(project_root);
        let mut queue: Vec<String> = Vec::new();
        queue.push(origin.clone());
        let r = ClosureWalk {
            origin,
            include_alias_deps,
            include_dep_sources,
            queue,
            visited: StrSet::new(),
            contents: ClosureContents { manifests: SortedMap::new(), sources: SortedMap::new() },
            found_manifest: false,
            has_deps_edn: false,
            source_paths: Vec::new(),
        };
        assert(r.queue.deep_view() =~= seq![normal_path(project_root@)]);
        assert(r.source_paths.deep_view() =~= Seq::<Seq<char>>::empty());
        r
    }

    /// The next root to visit: the queue is popped until a root, once
    /// normalized, has not been visited; that root is marked visited and
    /// starts with a clean slate. `None` when the closure is exhausted.
    pub fn next_root(&mut self) -> (r: Option<String>)
        ensures
            walk_step(old(self)@, final(self)@, r.deep_view()),
            walk_ok(old(self)@) ==> walk_ok(final(self)@),
            r matches Some(root) ==> !old(self)@.visited.contains(root@),
            match next_unvisited(old(self)@.queue, old(self)@.visited) {
                None => r is None && final(self)@.queue == Seq::<Seq<char>>::empty() && final(self)@.visited
                    == old(self)@.visited,
                Some((root, rest)) => r matches Some(s) && s@ == root && final(self)@.queue == rest
                    && final(self)@.visited == set_insert(old(self)@.visited, root),
            },
            final(self)@.origin == old(self)@.origin,
            final(self)@.include_alias_deps == old(self)@.include_alias_deps,
            final(self)@.include_dep_sources == old(self)@.include_dep_sources,
            final(self)@.manifests == old(self)@.manifests,
            final(self)@.sources == old(self)@.sources,
            !final(self)@.found_manifest,
            !final(self)@.has_deps_edn,
            final(self)@.source_paths == Seq::<Seq<char>>::empty(),
    {
        proof {
            law_next_root_unvisited(old(self)@.queue, old(self)@.visited);
        }
        self.found_manifest = false;
        self.has_deps_edn = false;
        self.source_paths = Vec::new();
        assert(self.source_paths.deep_view() =~= Seq::<Seq<char>>::empty());
        let ghost q0 = self.queue.deep_view();
        loop
            invariant
                self.origin@ == old(self)@.origin,
                self.include_alias_deps == old(self)@.include_alias_deps,
                self.include_dep_sources == old(self)@.include_dep_sources,
                self.contents.manifests@ == old(self)@.manifests,
                self.contents.sources@ == old(self)@.sources,
                self.visited@ == old(self)@.visited,
                !self.found_manifest,
                !self.has_deps_edn,
                self.source_paths.deep_view() == Seq::<Seq<char>>::empty(),
                next_unvisited(old(self)@.queue, old(self)@.visited) == next_unvisited(
                    self.queue.deep_view(),
                    self.visited@,
                ),
            decreases self.queue.len(),
        {
            let ghost before = self.queue.deep_view();
            match self.queue.pop() {
                None => {
                    assert(before.len() == 0);
                    return None;
                },
                Some(raw) => {
                    assert(self.queue.deep_view() =~= before.drop_last());
                    assert(raw@ == before.last());
                    let root = normalize_path(raw.as_str());
                    if !self.visited.contains(root.as_str()) {
                        self.visited.insert(root.clone());
                        return Some(root);
                    }
                },
            }
        }
    }

    /// The path of manifest `k` (`deps.edn`, then `bb.edn`) under `root`.
    pub fn manifest_path(root: &str, k: usize) -> (r: String)
        requires
            k < 2,
        ensures
            r@ == join_path(root@, manifest_name(k as int)),
    {
        if k == 0 {
            join(root, "deps.edn")
        } else {
            join(root, "bb.edn")
        }
    }

    /// Records what manifest `k` of the current root turned out to hold. A
    /// missing file contributes nothing; an unreadable one its marker; a
    /// read one its content hash, its local deps (queued under the root),
    /// and its top-level paths. A manifest that is not EDN stops the walk.
    pub fn record_manifest(&mut self, root: &str, k: usize, read: ManifestRead) -> (r: Result<(), ClosureError>)
        requires
            k < 2,
        ensures
            walk_step(old(self)@, final(self)@, None),
            walk_ok(old(self)@) ==> walk_ok(final(self)@),
            final(self)@.origin == old(self)@.origin,
            final(self)@.include_alias_deps == old(self)@.include_alias_deps,
            final(self)@.include_dep_sources == old(self)@.include_dep_sources,
            final(self)@.visited == old(self)@.visited,
            final(self)@.sources == old(self)@.sources,
            hash_values(old(self)@.manifests) ==> hash_values(final(self)@.manifests),
            ({
                let key = join_path(root@, manifest_name(k as int));
                match read {
                    ManifestRead::Missing => r is Ok && final(self)@ == old(self)@,
                    ManifestRead::Unreadable => {
                        &&& r is Ok
                        &&& final(self)@.manifests == assoc_insert(old(self)@.manifests, key, unreadable_marker())
                        &&& final(self)@.found_manifest
                        &&& final(self)@.queue == old(self)@.queue
                        &&& final(self)@.has_deps_edn == old(self)@.has_deps_edn
                        &&& final(self)@.source_paths == old(self)@.source_paths
                    },
                    ManifestRead::Content(c) => {
                        &&& final(self)@.manifests == assoc_insert(
                            old(self)@.manifests,
                            key,
                            hex_lower(sha256(vstd::utf8::encode_utf8(c@))),
                        )
                        &&& final(self)@.found_manifest
                        &&& match parse_result(c@) {
                            Err(m) => r matches Err(ClosureError::InvalidManifest { path, error: DepsEdnError::InvalidEdn(e) })
                                && path@ == key && e@ == m,
                            Ok(doc) => {
                                &&& r is Ok
                                &&& final(self)@.queue == queue_deps(
                                    old(self)@.queue,
                                    root@,
                                    spec_local_deps(doc, old(self)@.include_alias_deps),
                                )
                                &&& final(self)@.has_deps_edn == (old(self)@.has_deps_edn || k == 0)
                                &&& final(self)@.source_paths == union_paths(old(self)@.source_paths, doc.paths)
                            },
                        }
                    },
                }
            }),
    {
        let key = ClosureWalk::manifest_path(root, k);
        match read {
            ManifestRead::Missing => Ok(()),
            ManifestRead::Unreadable => {
                self.found_manifest = true;
                proof {
                    if hash_values(old(self)@.manifests) {
                        lemma_hash_values_insert(old(self)@.manifests, key@, unreadable_marker());
                    }
                }
                self.contents.manifests.insert(key, "unreadable".to_owned());
                Ok(())
            },
            ManifestRead::Content(c) => {
                self.found_manifest = true;
                let hash = sha256_hex(c.as_str());
                proof {
                    if hash_values(old(self)@.manifests) {
                        lemma_hash_values_insert(old(self)@.manifests, key@, hash@);
                    }
                }
                self.contents.manifests.insert(key.clone(), hash);
                let ghost m1 = self.contents.manifests@;
                let manifest = match DepsEdn::parse(c.as_str()) {
                    Ok(m) => m,
                    Err(e) => {
                        return Err(ClosureError::InvalidManifest { path: key, error: e });
                    },
                };
                let deps = manifest.local_deps(self.include_alias_deps);
                let ghost dv = deps@.map_values(|t: (&str, &str, bool)| crate::deps_edn::triple_view(t));
                let ghost q0 = self.queue.deep_view();
                let mut i: usize = 0;
                while i < deps.len()
                    invariant
                        self.origin@ == old(self)@.origin,
                        self.include_alias_deps == old(self)@.include_alias_deps,
                        self.include_dep_sources == old(self)@.include_dep_sources,
                        self.visited@ == old(self)@.visited,
                        self.contents.sources@ == old(self)@.sources,
                        self.contents.manifests@ == m1,
                        self.found_manifest,
                        self.has_deps_edn == old(self)@.has_deps_edn,
                        self.source_paths.deep_view() == old(self)@.source_paths,
                        i <= deps.len(),
                        dv == deps@.map_values(|t: (&str, &str, bool)| crate::deps_edn::triple_view(t)),
                        self.queue.deep_view() == queue_deps(q0, root@, dv.take(i as int)),
                    decreases deps.len() - i,
                {
                    let ghost before = self.queue.deep_view();
                    let next = join(root, deps[i].1);
                    self.queue.push(next);
                    assert(dv.take(i + 1).drop_last() =~= dv.take(i as int));
                    assert(dv.take(i + 1).last() == dv[i as int]);
                    assert(self.queue.deep_view() =~= before.push(next@));
                    i = i + 1;
                }
                assert(dv.take(deps.len() as int) =~= dv);
                if k == 0 {
                    self.has_deps_edn = true;
                }
                let ghost p0 = self.source_paths.deep_view();
                let ghost mp = manifest.paths.deep_view();
                let mut j: usize = 0;
                while j < manifest.paths.len()
                    invariant
                        self.origin@ == old(self)@.origin,
                        self.include_alias_deps == old(self)@.include_alias_deps,
                        self.include_dep_sources == old(self)@.include_dep_sources,
                        self.visited@ == old(self)@.visited,
                        self.contents.sources@ == old(self)@.sources,
                        self.contents.manifests@ == m1,
                        self.found_manifest,
                        self.has_deps_edn == (old(self)@.has_deps_edn || k == 0),
                        self.queue.deep_view() == queue_deps(old(self)@.queue, root@, dv),
                        j <= manifest.paths.len(),
                        mp == manifest.paths.deep_view(),
                        self.source_paths.deep_view() == union_paths(p0, mp.take(j as int)),
                    decreases manifest.paths.len() - j,
                {
                    let path = &manifest.paths[j];
                    assert(mp.take(j + 1).drop_last() =~= mp.take(j as int));
                    assert(mp.take(j + 1).last() == path@);
                    if !vec_contains_str(&self.source_paths, path.as_str()) {
                        let ghost before = self.source_paths.deep_view();
                        self.source_paths.push(path.clone());
                        assert(self.source_paths.deep_view() =~= before.push(path@));
                    }
                    j = j + 1;
                }
                assert(mp.take(manifest.paths.len() as int) =~= mp);
                Ok(())
            },
        }
    }

    /// Finishes the current root. A root without any manifest is recorded
    /// as unavailable. Otherwise, when dependency sources are hashed and
    /// the root is not the origin, the dirs whose files must be hashed are
    /// returned: its declared top-level paths, or `src` for a `deps.edn`
    /// root that declares none.
    pub fn finish_root(&mut self, root: &str) -> (r: Vec<String>)
        ensures
            walk_step(old(self)@, final(self)@, None),
            walk_ok(old(self)@) ==> walk_ok(final(self)@),
            final(self)@.origin == old(self)@.origin,
            final(self)@.include_alias_deps == old(self)@.include_alias_deps,
            final(self)@.include_dep_sources == old(self)@.include_dep_sources,
            final(self)@.visited == old(self)@.visited,
            final(self)@.queue == old(self)@.queue,
            final(self)@.sources == old(self)@.sources,
            !old(self)@.found_manifest ==> final(self)@.manifests == assoc_insert(
                old(self)@.manifests,
                root@,
                unavailable_marker(),
            ) && r@.len() == 0,
            old(self)@.found_manifest ==> final(self)@.manifests == old(self)@.manifests,
            hash_values(old(self)@.manifests) ==> hash_values(final(self)@.manifests),
            r.deep_view() == if old(self)@.found_manifest && old(self)@.include_dep_sources && root@
                != old(self)@.origin {
                root_source_dirs(root@, old(self)@.source_paths, old(self)@.has_deps_edn)
            } else {
                Seq::empty()
            },
    {
        let mut out: Vec<String> = Vec::new();
        if !self.found_manifest {
            proof {
                if hash_values(old(self)@.manifests) {
                    lemma_hash_values_insert(old(self)@.manifests, root@, unavailable_marker());
                }
            }
            self.contents.manifests.insert(root.to_owned(), "unavailable".to_owned());
            assert(out.deep_view() =~= Seq::<Seq<char>>::empty());
            return out;
        }
        if self.include_dep_sources && !str_eq(root, self.origin.as_str()) {
            let mut paths: Vec<String> = Vec::new();
            if self.source_paths.len() == 0 && self.has_deps_edn {
                paths.push("src".to_owned());
            } else {
                let mut j: usize = 0;
                while j < self.source_paths.len()
                    invariant
                        j <= self.source_paths.len(),
                        paths.deep_view() == self.source_paths.deep_view().take(j as int),
                    decreases self.source_paths.len() - j,
                {
                    let ghost before = paths.deep_view();
                    paths.push(self.source_paths[j].clone());
                    assert(paths.deep_view() =~= before.push(self.source_paths.deep_view()[j as int]));
                    assert(paths.deep_view() =~= self.source_paths.deep_view().take(j + 1));
                    j = j + 1;
                }
                assert(self.source_paths.deep_view().take(self.source_paths.len() as int) =~= self.source_paths.deep_view());
            }
            let ghost ps = paths.deep_view();
            assert(ps =~= if old(self)@.source_paths.len() == 0 && old(self)@.has_deps_edn {
                seq!["src"@]
            } else {
                old(self)@.source_paths
            });
            let mut i: usize = 0;
            while i < paths.len()
                invariant
                    i <= paths.len(),
                    ps == paths.deep_view(),
                    out.deep_view() == ps.take(i as int).map_values(|p: Seq<char>| join_path(root@, p)),
                decreases paths.len() - i,
            {
                let ghost before = out.deep_view();
                let d = join(root, paths[i].as_str());
                out.push(d);
                assert(out.deep_view() =~= before.push(d@));
                assert(ps.take(i + 1).map_values(|p: Seq<char>| join_path(root@, p)) =~= ps.take(i as int).map_values(|p: Seq<char>| join_path(root@, p)).push(join_path(root@, ps[i as int])));
                assert(out.deep_view() =~= ps.take(i + 1).map_values(|p: Seq<char>| join_path(root@, p)));
                i = i + 1;
            }
            assert(ps.take(paths.len() as int) =~= ps);
        } else {
            assert(out.deep_view() =~= Seq::<Seq<char>>::empty());
        }
        out
    }

    /// Records a dependency source file: its content hash, or the
    /// unreadable marker when it could not be read. A walk that does not
    /// hash dependency sources records none.
    pub fn record_source(&mut self, key: String, content: Option<Vec<u8>>)
        ensures
            walk_step(old(self)@, final(self)@, None),
            walk_ok(old(self)@) ==> walk_ok(final(self)@),
            final(self)@.origin == old(self)@.origin,
            final(self)@.include_alias_deps == old(self)@.include_alias_deps,
            final(self)@.include_dep_sources == old(self)@.include_dep_sources,
            final(self)@.visited == old(self)@.visited,
            final(self)@.queue == old(self)@.queue,
            final(self)@.manifests == old(self)@.manifests,
            final(self)@.found_manifest == old(self)@.found_manifest,
            final(self)@.has_deps_edn == old(self)@.has_deps_edn,
            final(self)@.source_paths == old(self)@.source_paths,
            hash_values(old(self)@.sources) ==> hash_values(final(self)@.sources),
            final(self)@.sources == if old(self)@.include_dep_sources {
                assoc_insert(
                    old(self)@.sources,
                    key@,
                    match content {
                        Some(bytes) => hex_lower(sha256(bytes@)),
                        None => unreadable_marker(),
                    },
                )
            } else {
                old(self)@.sources
            },
    {
        if !self.include_dep_sources {
            return;
        }
        match content {
            Some(bytes) => {
                let hash = sha256_hex_bytes(bytes.as_slice());
                proof {
                    if hash_values(old(self)@.sources) {
                        lemma_hash_values_insert(old(self)@.sources, key@, hash@);
                    }
                }
                self.contents.sources.insert(key, hash);
            },
            None => {
                proof {
                    if hash_values(old(self)@.sources) {
                        lemma_hash_values_insert(old(self)@.sources, key@, unreadable_marker());
                    }
                }
                self.contents.sources.insert(key, "unreadable".to_owned());
            },
        }
    }

    /// What the walk has collected: every value is a content hash or a
    /// marker, and there are no sources when dependency sources are not
    /// hashed, whatever steps the walk was driven through.
    pub fn into_contents(self) -> (r: ClosureContents)
        ensures
            r.manifests@ == self@.manifests,
            r.sources@ == self@.sources,
            walk_ok(self@) ==> hash_values(r.manifests@) && hash_values(r.sources@),
            walk_ok(self@) && !self@.include_dep_sources ==> r.sources@.len() == 0,
    {
        self.contents
    }
}

/// The name of manifest `k`: `deps.edn`, then `bb.edn`.
pub open spec fn manifest_name(k: int) -> Seq<char> {
    if k == 0 {
        "deps.edn"@
    } else {
        "bb.edn"@
    }
}

/// Whether a directory entry name starts with a dot.
pub open spec fn is_dotted(name: Seq<char>) -> bool {
    name.len() > 0 && name[0] == '.'
}

/// What kind of entry a directory listing turned out to hold.
#[derive(Clone, Copy, Debug, PartialEq, Eq)]
pub enum EntryKind {
    /// A directory.
    Dir,
    /// A symbolic link; whether it leads to a regular file.
    Symlink { target_is_file: bool },
    /// Any other file.
    File,
    /// The entry's type could not be read.
    Unknown,
}

/// What to do with a directory entry under a source dir.
#[derive(Clone, Copy, Debug, PartialEq, Eq)]
pub enum EntryAction {
    Skip,
    Descend,
    Hash,
}

/// Dot-prefixed entries (editor droppings, `.cpcache`, `.nrepl-port`) are
/// skipped, as are entries of unreadable type, build-output directories, and
/// symlinks not leading to a file (directory symlinks are skipped as a
/// cycle guard); other directories are descended into and other files hashed.
pub open spec fn entry_action(name: Seq<char>, kind: EntryKind) -> EntryAction {
    if is_dotted(name) {
        EntryAction::Skip
    } else {
        match kind {
            EntryKind::Unknown => EntryAction::Skip,
            EntryKind::Dir => if name == "target"@ || name == "node_modules"@ {
                EntryAction::Skip
            } else {
                EntryAction::Descend
            },
            EntryKind::Symlink { target_is_file } => if target_is_file {
                EntryAction::Hash
            } else {
                EntryAction::Skip
            },
            EntryKind::File => EntryAction::Hash,
        }
    }
}

/// Decides what to do with a directory entry under a source dir.
pub fn dir_entry_action(name: &str, kind: EntryKind) -> (r: EntryAction)
    ensures
        r == entry_action(name@, kind),
{
    let v = chars_of(name);
    if v.len() > 0 && v[0] == '.' {
        return EntryAction::Skip;
    }
    match kind {
        EntryKind::Unknown => EntryAction::Skip,
        EntryKind::Dir => {
            if str_eq(name, "target") || str_eq(name, "node_modules") {
                EntryAction::Skip
            } else {
                EntryAction::Descend
            }
        },
        EntryKind::Symlink { target_is_file } => {
            if target_is_file {
                EntryAction::Hash
            } else {
                EntryAction::Skip
            }
        },
        EntryKind::File => EntryAction::Hash,
    }
}

// ---------------------------------------------------------------------------
// The workspace-relative source dirs of the closure.

/// The workspace-relative roots that a manifest's local deps lead to, in
/// order, appended to `queue`; deps outside the workspace lead nowhere.
pub open spec fn queue_rel_deps(
    queue: Seq<Seq<char>>,
    root: Seq<char>,
    deps: Seq<(Seq<char>, Seq<char>, bool)>,
) -> Seq<Seq<char>>
    decreases deps.len(),
{
    if deps.len() == 0 {
        queue
    } else {
        let q = queue_rel_deps(queue, root, deps.drop_last());
        match rel_source(root, deps.last().1) {
            Some(d) => q.push(d),
            None => q,
        }
    }
}

/// `dirs` with the workspace-relative source dirs of a dependency root
/// added: its declared top-level paths, or `src` for a `deps.edn` root that
/// declares none; paths leading outside the workspace are left out.
pub open spec fn add_rel_dirs(dirs: Seq<Seq<char>>, root: Seq<char>, paths: Seq<Seq<char>>) -> Seq<Seq<char>>
    decreases paths.len(),
{
    if paths.len() == 0 {
        dirs
    } else {
        let d = add_rel_dirs(dirs, root, paths.drop_last());
        match rel_source(root, paths.last()) {
            Some(x) => set_insert(d, x),
            None => d,
        }
    }
}

proof fn lemma_set_insert_contains(s: Seq<Seq<char>>, k: Seq<char>)
    ensures
        forall|x: Seq<char>| #[trigger] set_insert(s, k).contains(x) <==> s.contains(x) || x == k,
{
    law_visited_grows(s, k);
    lemma_insert_index(s, k, 0);
    let i = insert_index(s, k, 0);
    let r = set_insert(s, k);
    assert forall|x: Seq<char>| #[trigger] r.contains(x) implies s.contains(x) || x == k by {
        let j = choose|j: int| 0 <= j < r.len() && r[j] == x;
        if !(i < s.len() && s[i] == k) {
            if j < i {
                assert(s[j] == x);
            } else if j > i {
                assert(s[j - 1] == x);
            }
        } else {
            assert(s[j] == x);
        }
    }
}

/// The source dirs a finished dependency root adds are exactly the
/// in-workspace resolutions of its paths, added to those collected before.
pub proof fn law_add_rel_dirs(dirs: Seq<Seq<char>>, root: Seq<char>, paths: Seq<Seq<char>>)
    ensures
        forall|x: Seq<char>|
            #[trigger] add_rel_dirs(dirs, root, paths).contains(x) <==> dirs.contains(x) || exists|i: int|
                0 <= i < paths.len() && #[trigger] rel_source(root, paths[i]) == Some(x),
    decreases paths.len(),
{
    if paths.len() > 0 {
        let init = paths.drop_last();
        law_add_rel_dirs(dirs, root, init);
        let d = add_rel_dirs(dirs, root, init);
        if let Some(y) = rel_source(root, paths.last()) {
            lemma_set_insert_contains(d, y);
        }
        assert forall|x: Seq<char>|
            #[trigger] add_rel_dirs(dirs, root, paths).contains(x) <==> dirs.contains(x) || exists|i: int|
                0 <= i < paths.len() && #[trigger] rel_source(root, paths[i]) == Some(x) by {
            if exists|i: int| 0 <= i < paths.len() && #[trigger] rel_source(root, paths[i]) == Some(x) {
                let i = choose|i: int| 0 <= i < paths.len() && #[trigger] rel_source(root, paths[i]) == Some(x);
                if i < paths.len() - 1 {
                    assert(init[i] == paths[i]);
                } else {
                    assert(paths[i] == paths.last());
                }
            }
            if exists|i: int| 0 <= i < init.len() && #[trigger] rel_source(root, init[i]) == Some(x) {
                let i = choose|i: int| 0 <= i < init.len() && #[trigger] rel_source(root, init[i]) == Some(x);
                assert(paths[i] == init[i]);
            }
            if rel_source(root, paths.last()) == Some(x) {
                assert(paths[paths.len() - 1] == paths.last());
            }
        }
    }
}

/// The state of a source-dir walk, as characters.
pub struct DirWalkView {
    pub origin: Seq<char>,
    pub include_alias_deps: bool,
    pub queue: Seq<Seq<char>>,
    pub visited: Seq<Seq<char>>,
    pub dirs: Seq<Seq<char>>,
    pub has_deps_edn: bool,
    pub source_paths: Seq<Seq<char>>,
}

/// A walk over the workspace-relative sources of a project's transitive
/// `:local/root` closure, collecting the source dirs of every dependency
/// (never those of the project itself).
pub struct SourceDirWalk {
    origin: String,
    include_alias_deps: bool,
    queue: Vec<String>,
    visited: StrSet,
    dirs: StrSet,
    has_deps_edn: bool,
    source_paths: Vec<String>,
}

impl View for SourceDirWalk {
    type V = DirWalkView;

    closed spec fn view(&self) -> DirWalkView {
        DirWalkView {
            origin: self.origin@,
            include_alias_deps: self.include_alias_deps,
            queue: self.queue.deep_view(),
            visited: self.visited@,
            dirs: self.dirs@,
            has_deps_edn: self.has_deps_edn,
            source_paths: self.source_paths.deep_view(),
        }
    }
}

/// The first root in the queue not yet visited, popping from the end.
pub open spec fn next_unvisited_rel(queue: Seq<Seq<char>>, visited: Seq<Seq<char>>) -> Option<(Seq<char>, Seq<Seq<char>>)>
    decreases queue.len(),
{
    if queue.len() == 0 {
        None
    } else if visited.contains(queue.last()) {
        next_unvisited_rel(queue.drop_last(), visited)
    } else {
        Some((queue.last(), queue.drop_last()))
    }
}

/// The source-dir walk visits each root once as well.
pub proof fn law_next_rel_root_unvisited(queue: Seq<Seq<char>>, visited: Seq<Seq<char>>)
    ensures
        next_unvisited_rel(queue, visited) matches Some((root, _)) ==> !visited.contains(root),
    decreases queue.len(),
{
    if queue.len() > 0 && visited.contains(queue.last()) {
        law_next_rel_root_unvisited(queue.drop_last(), visited);
    }
}

impl SourceDirWalk {
    /// A walk that starts at a project's workspace-relative source dir.
    pub fn new(project_source: &str, include_alias_deps: bool) -> (r: SourceDirWalk)
        ensures
            r@.origin == (match rel_source(project_source@, dot()) {
                Some(o) => o,
                None => dot(),
            }),
            r@.queue == seq![r@.origin],
            r@.visited == Seq::<Seq<char>>::empty(),
            r@.dirs == Seq::<Seq<char>>::empty(),
            r@.include_alias_deps == include_alias_deps,
            !r@.has_deps_edn,
            r@.source_paths == Seq::<Seq<char>>::empty(),
    {
        let origin = match normalize_rel_source(project_source, ".") {
            Some(o) => o,
            None => ".".to_owned(),
        };
        proof {
            reveal_strlit(".");
            assert("."@ =~= dot());
        }
        let mut queue: Vec<String> = Vec::new();
        queue.push(origin.clone());
        let r = SourceDirWalk {
            origin,
            include_alias_deps,
            queue,
            visited: StrSet::new(),
            dirs: StrSet::new(),
            has_deps_edn: false,
            source_paths: Vec::new(),
        };
        assert(r.queue.deep_view() =~= seq![r.origin@]);
        assert(r.source_paths.deep_view() =~= Seq::<Seq<char>>::empty());
        r
    }

    /// The next workspace-relative root to visit, marked visited, with a
    /// clean slate; `None` when the closure is exhausted.
    pub fn next_root(&mut self) -> (r: Option<String>)
        ensures
            r matches Some(root) ==> !old(self)@.visited.contains(root@),
            match next_unvisited_rel(old(self)@.queue, old(self)@.visited) {
                None => r is None && final(self)@.queue == Seq::<Seq<char>>::empty() && final(self)@.visited
                    == old(self)@.visited,
                Some((root, rest)) => r matches Some(s) && s@ == root && final(self)@.queue == rest
                    && final(self)@.visited == set_insert(old(self)@.visited, root),
            },
            final(self)@.origin == old(self)@.origin,
            final(self)@.include_alias_deps == old(self)@.include_alias_deps,
            final(self)@.dirs == old(self)@.dirs,
            !final(self)@.has_deps_edn,
            final(self)@.source_paths == Seq::<Seq<char>>::empty(),
    {
        proof {
            law_next_rel_root_unvisited(old(self)@.queue, old(self)@.visited);
        }
        self.has_deps_edn = false;
        self.source_paths = Vec::new();
        assert(self.source_paths.deep_view() =~= Seq::<Seq<char>>::empty());
        loop
            invariant
                self.origin@ == old(self)@.origin,
                self.include_alias_deps == old(self)@.include_alias_deps,
                self.dirs@ == old(self)@.dirs,
                self.visited@ == old(self)@.visited,
                !self.has_deps_edn,
                self.source_paths.deep_view() == Seq::<Seq<char>>::empty(),
                next_unvisited_rel(old(self)@.queue, old(self)@.visited) == next_unvisited_rel(
                    self.queue.deep_view(),
                    self.visited@,
                ),
            decreases self.queue.len(),
        {
            let ghost before = self.queue.deep_view();
            match self.queue.pop() {
                None => {
                    assert(before.len() == 0);
                    return None;
                },
                Some(root) => {
                    assert(self.queue.deep_view() =~= before.drop_last());
                    assert(root@ == before.last());
                    if !self.visited.contains(root.as_str()) {
                        self.visited.insert(root.clone());
                        return Some(root);
                    }
                },
            }
        }
    }

    /// Records the text of manifest `k` of the current root (`None` when
    /// the file does not exist): its in-workspace local deps are queued and
    /// its top-level paths collected. A manifest that is not EDN stops the
    /// walk.
    pub fn record_manifest(&mut self, root: &str, k: usize, content: Option<String>) -> (r: Result<(), ClosureError>)
        requires
            k < 2,
        ensures
            final(self)@.origin == old(self)@.origin,
            final(self)@.include_alias_deps == old(self)@.include_alias_deps,
            final(self)@.visited == old(self)@.visited,
            final(self)@.dirs == old(self)@.dirs,
            match content {
                None => r is Ok && final(self)@ == old(self)@,
                Some(c) => match parse_result(c@) {
                    Err(m) => r matches Err(ClosureError::InvalidManifest { path, error: DepsEdnError::InvalidEdn(e) })
                        && path@ == join_path(root@, manifest_name(k as int)) && e@ == m,
                    Ok(doc) => {
                        &&& r is Ok
                        &&& final(self)@.queue == queue_rel_deps(
                            old(self)@.queue,
                            root@,
                            spec_local_deps(doc, old(self)@.include_alias_deps),
                        )
                        &&& final(self)@.has_deps_edn == (old(self)@.has_deps_edn || k == 0)
                        &&& final(self)@.source_paths == union_paths(old(self)@.source_paths, doc.paths)
                    },
                },
            },
    {
        let c = match content {
            None => {
                return Ok(());
            },
            Some(c) => c,
        };
        let manifest = match DepsEdn::parse(c.as_str()) {
            Ok(m) => m,
            Err(e) => {
                return Err(ClosureError::InvalidManifest { path: ClosureWalk::manifest_path(root, k), error: e });
            },
        };
        let deps = manifest.local_deps(self.include_alias_deps);
        let ghost dv = deps@.map_values(|t: (&str, &str, bool)| crate::deps_edn::triple_view(t));
        let ghost q0 = self.queue.deep_view();
        let mut i: usize = 0;
        while i < deps.len()
            invariant
                self.origin@ == old(self)@.origin,
                self.include_alias_deps == old(self)@.include_alias_deps,
                self.visited@ == old(self)@.visited,
                self.dirs@ == old(self)@.dirs,
                self.has_deps_edn == old(self)@.has_deps_edn,
                self.source_paths.deep_view() == old(self)@.source_paths,
                i <= deps.len(),
                dv == deps@.map_values(|t: (&str, &str, bool)| crate::deps_edn::triple_view(t)),
                self.queue.deep_view() == queue_rel_deps(q0, root@, dv.take(i as int)),
            decreases deps.len() - i,
        {
            let ghost before = self.queue.deep_view();
            assert(dv.take(i + 1).drop_last() =~= dv.take(i as int));
            assert(dv.take(i + 1).last() == dv[i as int]);
            if let Some(next) = normalize_rel_source(root, deps[i].1) {
                self.queue.push(next);
                assert(self.queue.deep_view() =~= before.push(next@));
            }
            i = i + 1;
        }
        assert(dv.take(deps.len() as int) =~= dv);
        if k == 0 {
            self.has_deps_edn = true;
        }
        let ghost p0 = self.source_paths.deep_view();
        let ghost mp = manifest.paths.deep_view();
        let mut j: usize = 0;
        while j < manifest.paths.len()
            invariant
                self.origin@ == old(self)@.origin,
                self.include_alias_deps == old(self)@.include_alias_deps,
                self.visited@ == old(self)@.visited,
                self.dirs@ == old(self)@.dirs,
                self.has_deps_edn == (old(self)@.has_deps_edn || k == 0),
                self.queue.deep_view() == queue_rel_deps(old(self)@.queue, root@, dv),
                j <= manifest.paths.len(),
                mp == manifest.paths.deep_view(),
                self.source_paths.deep_view() == union_paths(p0, mp.take(j as int)),
            decreases manifest.paths.len() - j,
        {
            let path = &manifest.paths[j];
            assert(mp.take(j + 1).drop_last() =~= mp.take(j as int));
            assert(mp.take(j + 1).last() == path@);
            if !vec_contains_str(&self.source_paths, path.as_str()) {
                let ghost before = self.source_paths.deep_view();
                self.source_paths.push(path.clone());
                assert(self.source_paths.deep_view() =~= before.push(path@));
            }
            j = j + 1;
        }
        assert(mp.take(manifest.paths.len() as int) =~= mp);
        Ok(())
    }

    /// Finishes the current root: unless it is the project itself, its
    /// source dirs join the collected set.
    pub fn finish_root(&mut self, root: &str)
        ensures
            final(self)@.origin == old(self)@.origin,
            final(self)@.include_alias_deps == old(self)@.include_alias_deps,
            final(self)@.visited == old(self)@.visited,
            final(self)@.queue == old(self)@.queue,
            final(self)@.has_deps_edn == old(self)@.has_deps_edn,
            final(self)@.source_paths == old(self)@.source_paths,
            final(self)@.dirs == if root@ == old(self)@.origin {
                old(self)@.dirs
            } else {
                add_rel_dirs(
                    old(self)@.dirs,
                    root@,
                    if old(self)@.source_paths.len() == 0 && old(self)@.has_deps_edn {
                        seq!["src"@]
                    } else {
                        old(self)@.source_paths
                    },
                )
            },
    {
        if str_eq(root, self.origin.as_str()) {
            return;
        }
        let mut paths: Vec<String> = Vec::new();
        if self.source_paths.len() == 0 && self.has_deps_edn {
            paths.push("src".to_owned());
        } else {
            let mut j: usize = 0;
            while j < self.source_paths.len()
                invariant
                    j <= self.source_paths.len(),
                    paths.deep_view() == self.source_paths.deep_view().take(j as int),
                decreases self.source_paths.len() - j,
            {
                let ghost before = paths.deep_view();
                paths.push(self.source_paths[j].clone());
                assert(paths.deep_view() =~= before.push(self.source_paths.deep_view()[j as int]));
                assert(paths.deep_view() =~= self.source_paths.deep_view().take(j + 1));
                j = j + 1;
            }
            assert(self.source_paths.deep_view().take(self.source_paths.len() as int) =~= self.source_paths.deep_view());
        }
        let ghost ps = paths.deep_view();
        assert(ps =~= if old(self)@.source_paths.len() == 0 && old(self)@.has_deps_edn {
            seq!["src"@]
        } else {
            old(self)@.source_paths
        });
        let ghost d0 = self.dirs@;
        let mut i: usize = 0;
        while i < paths.len()
            invariant
                self.origin@ == old(self)@.origin,
                self.include_alias_deps == old(self)@.include_alias_deps,
                self.visited@ == old(self)@.visited,
                self.queue.deep_view() == old(self)@.queue,
                self.has_deps_edn == old(self)@.has_deps_edn,
                self.source_paths.deep_view() == old(self)@.source_paths,
                i <= paths.len(),
                ps == paths.deep_view(),
                self.dirs@ == add_rel_dirs(d0, root@, ps.take(i as int)),
            decreases paths.len() - i,
        {
            assert(ps.take(i + 1).drop_last() =~= ps.take(i as int));
            assert(ps.take(i + 1).last() == ps[i as int]);
            if let Some(d) = normalize_rel_source(root, paths[i].as_str()) {
                self.dirs.insert(d);
            }
            i = i + 1;
        }
        assert(ps.take(paths.len() as int) =~= ps);
    }

    /// The collected source dirs, in increasing order.
    pub fn into_dirs(self) -> (r: StrSet)
        ensures
            r@ == self@.dirs,
    {
        self.dirs
    }
}

} // verus!
