//! Gazelle-style config generation (after rules_clojure's `gen_srcs`): the
//! toolchain owns a marker-delimited `fileGroups` block inside each Clojure
//! project's `moon.yml`, regenerated from the deps.edn `:local/root` closure
//! during project sync. Humans reference the group from tasks, once, as
//! `'@group(localDeps)'`, and never hand-maintain dependency source globs.
//!
//! The block is a pure function of the manifest closure and is rewritten
//! only when its content actually changes.
use vstd::prelude::*;
use crate::sorted::StrSet;
use crate::text::{chars_of, is_ws, is_whitespace, push_char, string_of};

verus! {

pub const BLOCK_START: &'static str = "# <clojure-toolchain:local-deps>";

pub const BLOCK_END: &'static str = "# </clojure-toolchain:local-deps>";

pub const GROUP_NAME: &'static str = "localDeps";

// ---------------------------------------------------------------------------
// Lines and trimming, as `str::lines`, `str::trim` and `str::trim_start` do them.

/// A line with the `\r` of a `\r\n` ending removed.
pub open spec fn strip_cr(l: Seq<char>) -> Seq<char> {
    if l.len() > 0 && l.last() == '\r' {
        l.drop_last()
    } else {
        l
    }
}

/// Splitting `rest` into lines, given the lines `done` so far and the line
/// `cur` being collected.
pub open spec fn lines_acc(done: Seq<Seq<char>>, cur: Seq<char>, rest: Seq<char>) -> Seq<Seq<char>>
    decreases rest.len(),
{
    if rest.len() == 0 {
        if cur.len() == 0 {
            done
        } else {
            done.push(cur)
        }
    } else if rest[0] == '\n' {
        lines_acc(done.push(strip_cr(cur)), Seq::empty(), rest.drop_first())
    } else {
        lines_acc(done, cur.push(rest[0]), rest.drop_first())
    }
}

/// The lines of a text: split at `\n` or `\r\n`, terminators removed, and a
/// final line ending optional.
pub open spec fn lines(s: Seq<char>) -> Seq<Seq<char>> {
    lines_acc(Seq::empty(), Seq::empty(), s)
}

/// The text with leading whitespace removed.
pub open spec fn trim_start(s: Seq<char>) -> Seq<char>
    decreases s.len(),
{
    if s.len() > 0 && is_ws(s[0]) {
        trim_start(s.drop_first())
    } else {
        s
    }
}

/// The text with trailing whitespace removed.
pub open spec fn trim_end(s: Seq<char>) -> Seq<char>
    decreases s.len(),
{
    if s.len() > 0 && is_ws(s.last()) {
        trim_end(s.drop_last())
    } else {
        s
    }
}

/// The text with leading and trailing whitespace removed.
pub open spec fn trim(s: Seq<char>) -> Seq<char> {
    trim_end(trim_start(s))
}

/// The index of the first line at or after `from` that trims to `marker`.
pub open spec fn find_line(ls: Seq<Seq<char>>, marker: Seq<char>, from: int) -> Option<int>
    decreases ls.len() - from,
{
    if from < 0 || from >= ls.len() {
        None
    } else if trim(ls[from]) == marker {
        Some(from)
    } else {
        find_line(ls, marker, from + 1)
    }
}

/// The lines, each followed by `\n`.
pub open spec fn join_lines(ls: Seq<Seq<char>>) -> Seq<char>
    decreases ls.len(),
{
    if ls.len() == 0 {
        Seq::empty()
    } else {
        join_lines(ls.drop_last()) + ls.last() + seq!['\n']
    }
}

/// Whether `s` starts with `p`.
pub open spec fn starts_with(s: Seq<char>, p: Seq<char>) -> bool {
    p.len() <= s.len() && s.take(p.len() as int) == p
}

/// Whether `s` ends with a blank line, i.e. with `\n\n`.
pub open spec fn ends_blank(s: Seq<char>) -> bool {
    s.len() >= 2 && s[s.len() - 1] == '\n' && s[s.len() - 2] == '\n'
}

/// Non-empty text padded with newlines until it ends with `\n\n`.
pub open spec fn pad_blank(s: Seq<char>) -> Seq<char> {
    if s.len() == 0 || ends_blank(s) {
        s
    } else if s.last() == '\n' {
        s.push('\n')
    } else {
        s + seq!['\n', '\n']
    }
}

// ---------------------------------------------------------------------------
// What the functions compute.

/// The comment lines under the start marker.
pub open spec fn header() -> Seq<char> {
    "# Generated from deps.edn's transitive :local/root closure \u{2014} the source\n# dirs of every local dependency. Do not edit: project sync (any moon run,\n# or `moon sync projects`) refreshes it. Reference it from tasks as an\n# input: '@group(localDeps)'.\n"@
}

/// One glob line per dir: `    - '/<dir>/**/*'`.
pub open spec fn glob_lines(dirs: Seq<Seq<char>>) -> Seq<char>
    decreases dirs.len(),
{
    if dirs.len() == 0 {
        Seq::empty()
    } else {
        glob_lines(dirs.drop_last()) + "    - '/"@ + dirs.last() + "/**/*'\n"@
    }
}

/// The managed block for the given dirs, in set order.
pub open spec fn rendered(dirs: Seq<Seq<char>>) -> Seq<char> {
    BLOCK_START@ + seq!['\n'] + header() + (if dirs.len() == 0 {
        "fileGroups:\n  localDeps: []\n"@
    } else {
        "fileGroups:\n  localDeps:\n"@ + glob_lines(dirs)
    }) + BLOCK_END@ + seq!['\n']
}

/// The text that splicing `block` into `content` produces: the first
/// start-marker line through the first end-marker line is replaced when
/// both exist in that order; otherwise the block is appended after a blank
/// line.
pub open spec fn spliced(content: Seq<char>, block: Seq<char>) -> Seq<char> {
    let ls = lines(content);
    let s = find_line(ls, BLOCK_START@, 0);
    let e = find_line(ls, BLOCK_END@, 0);
    if s is Some && e is Some && s->0 <= e->0 {
        join_lines(ls.take(s->0)) + block + join_lines(ls.skip(e->0 + 1))
    } else {
        pad_blank(content) + block
    }
}

/// `None` when splicing changes nothing, else the new text.
pub open spec fn splice_result(content: Seq<char>, block: Seq<char>) -> Option<Seq<char>> {
    if spliced(content, block) == content {
        None
    } else {
        Some(spliced(content, block))
    }
}

/// Whether line `i` lies within the first start marker through the first end marker.
pub open spec fn inside_block(i: int, s: Option<int>, e: Option<int>) -> bool {
    s is Some && e is Some && i >= s->0 && i <= e->0
}

/// Whether a `fileGroups:` key is declared outside the managed block.
pub open spec fn unmanaged_groups(content: Seq<char>) -> bool {
    let ls = lines(content);
    let s = find_line(ls, BLOCK_START@, 0);
    let e = find_line(ls, BLOCK_END@, 0);
    exists|i: int|
        0 <= i < ls.len() && !inside_block(i, s, e) && starts_with(trim_start(#[trigger] ls[i]), "fileGroups:"@)
}

// ---------------------------------------------------------------------------
// Implementation.

fn lines_vec(v: &Vec<char>) -> (r: Vec<Vec<char>>)
    ensures
        r@.map_values(|p: Vec<char>| p@) == lines(v@),
{
    let mut done: Vec<Vec<char>> = Vec::new();
    let mut cur: Vec<char> = Vec::new();
    let mut i: usize = 0;
    assert(v@.skip(0) =~= v@);
    assert(done@.map_values(|p: Vec<char>| p@) =~= Seq::<Seq<char>>::empty());
    while i < v.len()
        invariant
            i <= v.len(),
            lines(v@) == lines_acc(done@.map_values(|p: Vec<char>| p@), cur@, v@.skip(i as int)),
        decreases v.len() - i,
    {
        assert(v@.skip(i as int).drop_first() =~= v@.skip(i + 1));
        assert(v@.skip(i as int)[0] == v@[i as int]);
        let ghost before = done@.map_values(|p: Vec<char>| p@);
        if v[i] == '\n' {
            let mut piece = cur;
            let ghost raw = piece@;
            if piece.len() > 0 && piece[piece.len() - 1] == '\r' {
                piece.pop();
                assert(piece@ =~= raw.drop_last());
            }
            assert(piece@ == strip_cr(raw));
            cur = Vec::new();
            done.push(piece);
            assert(done@.map_values(|p: Vec<char>| p@) =~= before.push(strip_cr(raw)));
            assert(cur@ =~= Seq::<char>::empty());
        } else {
            cur.push(v[i]);
        }
        i = i + 1;
    }
    assert(v@.skip(i as int).len() == 0);
    if cur.len() > 0 {
        let ghost before = done@.map_values(|p: Vec<char>| p@);
        let piece = cur;
        done.push(piece);
        assert(done@.map_values(|p: Vec<char>| p@) =~= before.push(piece@));
    }
    done
}

fn trim_start_vec(v: &Vec<char>) -> (r: Vec<char>)
    ensures
        r@ == trim_start(v@),
{
    let mut i: usize = 0;
    assert(v@.skip(0) =~= v@);
    while i < v.len() && is_whitespace(v[i])
        invariant
            i <= v.len(),
            trim_start(v@) == trim_start(v@.skip(i as int)),
        decreases v.len() - i,
    {
        assert(v@.skip(i as int).drop_first() =~= v@.skip(i + 1));
        assert(v@.skip(i as int)[0] == v@[i as int]);
        i = i + 1;
    }
    let mut r: Vec<char> = Vec::new();
    let mut j: usize = i;
    while j < v.len()
        invariant
            i <= j <= v.len(),
            r@ == v@.subrange(i as int, j as int),
        decreases v.len() - j,
    {
        r.push(v[j]);
        assert(r@ =~= v@.subrange(i as int, j + 1));
        j = j + 1;
    }
    assert(r@ =~= v@.skip(i as int));
    if i < v.len() {
        assert(v@.skip(i as int)[0] == v@[i as int]);
    }
    r
}

fn trim_end_vec(v: &Vec<char>) -> (r: Vec<char>)
    ensures
        r@ == trim_end(v@),
{
    let mut n: usize = v.len();
    assert(v@.take(n as int) =~= v@);
    while n > 0 && is_whitespace(v[n - 1])
        invariant
            n <= v.len(),
            trim_end(v@) == trim_end(v@.take(n as int)),
        decreases n,
    {
        assert(v@.take(n as int).drop_last() =~= v@.take(n - 1));
        assert(v@.take(n as int).last() == v@[n - 1]);
        n = n - 1;
    }
    let mut r: Vec<char> = Vec::new();
    let mut j: usize = 0;
    while j < n
        invariant
            j <= n <= v.len(),
            r@ == v@.take(j as int),
        decreases n - j,
    {
        r.push(v[j]);
        assert(r@ =~= v@.take(j + 1));
        j = j + 1;
    }
    if n > 0 {
        assert(v@.take(n as int).last() == v@[n - 1]);
    }
    r
}

fn trim_vec(v: &Vec<char>) -> (r: Vec<char>)
    ensures
        r@ == trim(v@),
{
    let s = trim_start_vec(v);
    trim_end_vec(&s)
}

fn eq_vec(a: &Vec<char>, b: &Vec<char>) -> (r: bool)
    ensures
        r == (a@ == b@),
{
    match crate::text::compare_chars(a, b) {
        crate::text::StrOrder::Equal => true,
        _ => false,
    }
}

/// The first line that trims to `marker`.
fn find_marker(ls: &Vec<Vec<char>>, marker: &Vec<char>) -> (r: Option<usize>)
    ensures
        match r {
            Some(i) => find_line(ls@.map_values(|p: Vec<char>| p@), marker@, 0) == Some(i as int),
            None => find_line(ls@.map_values(|p: Vec<char>| p@), marker@, 0) is None,
        },
{
    let ghost lv = ls@.map_values(|p: Vec<char>| p@);
    let mut i: usize = 0;
    while i < ls.len()
        invariant
            i <= ls.len(),
            lv == ls@.map_values(|p: Vec<char>| p@),
            find_line(lv, marker@, 0) == find_line(lv, marker@, i as int),
        decreases ls.len() - i,
    {
        let t = trim_vec(&ls[i]);
        assert(lv[i as int] == ls@[i as int]@);
        if eq_vec(&t, marker) {
            return Some(i);
        }
        i = i + 1;
    }
    None
}

fn push_all(out: &mut Vec<char>, s: &Vec<char>)
    ensures
        final(out)@ == old(out)@ + s@,
{
    let mut j: usize = 0;
    while j < s.len()
        invariant
            j <= s.len(),
            out@ == old(out)@ + s@.take(j as int),
        decreases s.len() - j,
    {
        out.push(s[j]);
        assert(s@.take(j + 1) =~= s@.take(j as int).push(s@[j as int]));
        j = j + 1;
    }
    assert(s@.take(s.len() as int) =~= s@);
}

/// Appends `ls[from..to]`, each line followed by `\n`.
fn push_lines(out: &mut Vec<char>, ls: &Vec<Vec<char>>, from: usize, to: usize)
    requires
        from <= to <= ls.len(),
    ensures
        final(out)@ == old(out)@ + join_lines(ls@.map_values(|p: Vec<char>| p@).subrange(from as int, to as int)),
{
    let ghost lv = ls@.map_values(|p: Vec<char>| p@);
    let mut i: usize = from;
    assert(lv.subrange(from as int, from as int) =~= Seq::<Seq<char>>::empty());
    while i < to
        invariant
            from <= i <= to <= ls.len(),
            lv == ls@.map_values(|p: Vec<char>| p@),
            out@ == old(out)@ + join_lines(lv.subrange(from as int, i as int)),
        decreases to - i,
    {
        let ghost before = out@;
        push_all(out, &ls[i]);
        out.push('\n');
        assert(lv.subrange(from as int, i + 1).drop_last() =~= lv.subrange(from as int, i as int));
        assert(lv.subrange(from as int, i + 1).last() == ls@[i as int]@);
        assert(out@ =~= old(out)@ + join_lines(lv.subrange(from as int, i + 1)));
        i = i + 1;
    }
}

/// Render the managed block for a set of workspace-relative dependency
/// source dirs.
pub fn render_local_deps_block(dirs: &StrSet) -> (r: String)
    ensures
        r@ == rendered(dirs@),
{
    let mut out = String::new();
    out.append(BLOCK_START);
    push_char(&mut out, '\n');
    out.append(
        "# Generated from deps.edn's transitive :local/root closure \u{2014} the source\n# dirs of every local dependency. Do not edit: project sync (any moon run,\n# or `moon sync projects`) refreshes it. Reference it from tasks as an\n# input: '@group(localDeps)'.\n",
    );
    let ghost prefix = out@;
    if dirs.is_empty() {
        out.append("fileGroups:\n  localDeps: []\n");
    } else {
        out.append("fileGroups:\n  localDeps:\n");
        let ghost head = out@;
        let mut i: usize = 0;
        while i < dirs.len()
            invariant
                i <= dirs@.len(),
                out@ == head + glob_lines(dirs@.take(i as int)),
            decreases dirs@.len() - i,
        {
            out.append("    - '/");
            out.append(dirs.get(i).as_str());
            out.append("/**/*'\n");
            assert(dirs@.take(i + 1).drop_last() =~= dirs@.take(i as int));
            assert(dirs@.take(i + 1).last() == dirs@[i as int]);
            i = i + 1;
        }
        assert(dirs@.take(dirs@.len() as int) =~= dirs@);
    }
    out.append(BLOCK_END);
    push_char(&mut out, '\n');
    out
}

/// Splice the managed block into `moon.yml` content: replaces an existing
/// marker-delimited block in place, or appends one (blank-line separated)
/// when absent. Returns `None` when the content is already up to date.
pub fn splice_managed_block(content: &str, block: &str) -> (r: Option<String>)
    ensures
        r.deep_view() == splice_result(content@, block@),
{
    let cv = chars_of(content);
    let bv = chars_of(block);
    let ls = lines_vec(&cv);
    let ghost lv = ls@.map_values(|p: Vec<char>| p@);
    let start = find_marker(&ls, &chars_of(BLOCK_START));
    let end = find_marker(&ls, &chars_of(BLOCK_END));
    let mut out: Vec<char> = Vec::new();
    let mut replaced = false;
    if let Some(s) = start {
        if let Some(e) = end {
            if s <= e {
                assert(e < ls.len()) by {
                    lemma_find_line_bound(lv, BLOCK_END@, 0);
                }
                push_lines(&mut out, &ls, 0, s);
                push_all(&mut out, &bv);
                push_lines(&mut out, &ls, e + 1, ls.len());
                assert(lv.subrange(0, s as int) =~= lv.take(s as int));
                assert(lv.subrange(e + 1, ls.len() as int) =~= lv.skip(e + 1));
                replaced = true;
            }
        }
    }
    if !replaced {
        push_all(&mut out, &cv);
        let n = cv.len();
        if n > 0 && !(n >= 2 && cv[n - 1] == '\n' && cv[n - 2] == '\n') {
            if cv[n - 1] == '\n' {
                out.push('\n');
            } else {
                out.push('\n');
                out.push('\n');
            }
        }
        assert(out@ =~= pad_blank(cv@));
        push_all(&mut out, &bv);
    }
    assert(out@ == spliced(content@, block@));
    if eq_vec(&out, &cv) {
        None
    } else {
        Some(string_of(&out))
    }
}

/// True when the content declares a `fileGroups:` key outside the managed
/// block: splicing the block in would produce a duplicate YAML key, so the
/// caller must skip (and the user merges the group by hand).
pub fn has_unmanaged_file_groups(content: &str) -> (r: bool)
    ensures
        r == unmanaged_groups(content@),
{
    let cv = chars_of(content);
    let ls = lines_vec(&cv);
    let ghost lv = ls@.map_values(|p: Vec<char>| p@);
    let start = find_marker(&ls, &chars_of(BLOCK_START));
    let end = find_marker(&ls, &chars_of(BLOCK_END));
    let ghost so = match start {
        Some(s) => Some(s as int),
        None => None::<int>,
    };
    let ghost eo = match end {
        Some(e) => Some(e as int),
        None => None::<int>,
    };
    let key = chars_of("fileGroups:");
    let mut i: usize = 0;
    while i < ls.len()
        invariant
            i <= ls.len(),
            lv == ls@.map_values(|p: Vec<char>| p@),
            key@ == "fileGroups:"@,
            lv == lines(content@),
            so == find_line(lv, BLOCK_START@, 0),
            eo == find_line(lv, BLOCK_END@, 0),
            so == match start {
                Some(s) => Some(s as int),
                None => None::<int>,
            },
            eo == match end {
                Some(e) => Some(e as int),
                None => None::<int>,
            },
            forall|j: int|
                0 <= j < i ==> !(!inside_block(j, so, eo) && starts_with(trim_start(#[trigger] lv[j]), key@)),
        decreases ls.len() - i,
    {
        let inside = match (start, end) {
            (Some(s), Some(e)) => i >= s && i <= e,
            _ => false,
        };
        assert(inside == inside_block(i as int, so, eo));
        if !inside {
            let t = trim_start_vec(&ls[i]);
            assert(lv[i as int] == ls@[i as int]@);
            if t.len() >= key.len() {
                let mut k: usize = 0;
                while k < key.len() && t[k] == key[k]
                    invariant
                        k <= key.len() <= t.len(),
                        t@.take(k as int) == key@.take(k as int),
                    decreases key.len() - k,
                {
                    assert(t@.take(k + 1) =~= t@.take(k as int).push(t@[k as int]));
                    assert(key@.take(k + 1) =~= key@.take(k as int).push(key@[k as int]));
                    k = k + 1;
                }
                if k == key.len() {
                    assert(key@.take(k as int) =~= key@);
                    assert(starts_with(trim_start(lv[i as int]), key@));
                    return true;
                } else {
                    assert(t@.take(key.len() as int)[k as int] != key@[k as int]);
                }
            }
        }
        i = i + 1;
    }
    false
}

proof fn lemma_find_line_bound(ls: Seq<Seq<char>>, marker: Seq<char>, from: int)
    ensures
        find_line(ls, marker, from) matches Some(i) ==> from <= i < ls.len() && trim(ls[i]) == marker,
    decreases ls.len() - from,
{
    if 0 <= from < ls.len() && trim(ls[from]) != marker {
        lemma_find_line_bound(ls, marker, from + 1);
    }
}

// ---------------------------------------------------------------------------
// Laws.

/// A line that `str::lines` can give back unchanged: no `\n`, and no
/// `\r` at its end.
pub open spec fn plain_line(l: Seq<char>) -> bool {
    !l.contains('\n') && !(l.len() > 0 && l.last() == '\r')
}

/// Every line is plain.
pub open spec fn plain_lines(ls: Seq<Seq<char>>) -> bool {
    forall|i: int| 0 <= i < ls.len() ==> plain_line(#[trigger] ls[i])
}

proof fn lemma_lines_chunk(done: Seq<Seq<char>>, cur: Seq<char>, x: Seq<char>, rest: Seq<char>)
    requires
        !x.contains('\n'),
    ensures
        lines_acc(done, cur, x + rest) == lines_acc(done, cur + x, rest),
    decreases x.len(),
{
    if x.len() == 0 {
        assert(x + rest =~= rest);
        assert(cur + x =~= cur);
    } else {
        assert((x + rest)[0] == x[0]);
        assert((x + rest).drop_first() =~= x.drop_first() + rest);
        assert(!x.drop_first().contains('\n')) by {
            if x.drop_first().contains('\n') {
                let k = choose|k: int| 0 <= k < x.drop_first().len() && x.drop_first()[k] == '\n';
                assert(x[k + 1] == '\n');
            }
        }
        assert(x[0] != '\n');
        lemma_lines_chunk(done, cur.push(x[0]), x.drop_first(), rest);
        assert(cur.push(x[0]) + x.drop_first() =~= cur + x);
    }
}

/// Reading back joined plain lines gives the lines.
proof fn lemma_lines_join(done: Seq<Seq<char>>, ls: Seq<Seq<char>>, rest: Seq<char>)
    requires
        plain_lines(ls),
    ensures
        lines_acc(done, Seq::empty(), join_lines(ls) + rest) == lines_acc(done + ls, Seq::empty(), rest),
    decreases ls.len(),
{
    let e = Seq::<char>::empty();
    if ls.len() == 0 {
        assert(join_lines(ls) + rest =~= rest);
        assert(done + ls =~= done);
    } else {
        let init = ls.drop_last();
        let last = ls.last();
        assert(plain_lines(init)) by {
            assert forall|i: int| 0 <= i < init.len() implies plain_line(#[trigger] init[i]) by {
                assert(init[i] == ls[i]);
            }
        }
        assert(plain_line(ls[ls.len() - 1]));
        lemma_lines_join(done, init, last + seq!['\n'] + rest);
        assert(join_lines(ls) + rest =~= join_lines(init) + (last + seq!['\n'] + rest));
        lemma_lines_chunk(done + init, e, last, seq!['\n'] + rest);
        assert(last + seq!['\n'] + rest =~= last + (seq!['\n'] + rest));
        assert(e + last =~= last);
        assert((seq!['\n'] + rest)[0] == '\n');
        assert((seq!['\n'] + rest).drop_first() =~= rest);
        if last.len() > 0 {
            assert(last.last() != '\r') by {
                assert(last[last.len() - 1] == last.last());
            }
        }
        assert(strip_cr(last) == last);
        assert((done + init).push(last) =~= done + ls);
    }
}

/// The lines of joined plain lines are those lines.
proof fn lemma_lines_of_join(ls: Seq<Seq<char>>)
    requires
        plain_lines(ls),
    ensures
        lines(join_lines(ls)) == ls,
{
    let e = Seq::<char>::empty();
    lemma_lines_join(Seq::empty(), ls, e);
    assert(join_lines(ls) + e =~= join_lines(ls));
    assert(Seq::<Seq<char>>::empty() + ls =~= ls);
}

proof fn lemma_join_lines_concat(a: Seq<Seq<char>>, b: Seq<Seq<char>>)
    ensures
        join_lines(a + b) == join_lines(a) + join_lines(b),
    decreases b.len(),
{
    if b.len() == 0 {
        assert(a + b =~= a);
        assert(join_lines(a) + join_lines(b) =~= join_lines(a));
    } else {
        assert((a + b).drop_last() =~= a + b.drop_last());
        assert((a + b).last() == b.last());
        lemma_join_lines_concat(a, b.drop_last());
        assert(join_lines(a) + join_lines(b.drop_last()) + b.last() + seq!['\n'] =~= join_lines(a) + (
        join_lines(b.drop_last()) + b.last() + seq!['\n']));
    }
}

/// With no `\r` in the text, every line it splits into is plain.
proof fn lemma_lines_acc_plain(done: Seq<Seq<char>>, cur: Seq<char>, rest: Seq<char>)
    requires
        plain_lines(done),
        plain_line(cur),
        !rest.contains('\r'),
    ensures
        plain_lines(lines_acc(done, cur, rest)),
    decreases rest.len(),
{
    if rest.len() == 0 {
        if cur.len() > 0 {
            assert forall|i: int| 0 <= i < done.push(cur).len() implies plain_line(#[trigger] done.push(cur)[i]) by {
                if i < done.len() {
                    assert(done.push(cur)[i] == done[i]);
                }
            }
        }
    } else {
        let r2 = rest.drop_first();
        assert(!r2.contains('\r')) by {
            if r2.contains('\r') {
                let k = choose|k: int| 0 <= k < r2.len() && r2[k] == '\r';
                assert(rest[k + 1] == '\r');
            }
        }
        if rest[0] == '\n' {
            assert(strip_cr(cur) == cur) by {
                if cur.len() > 0 {
                    assert(cur[cur.len() - 1] == cur.last());
                }
            }
            let d2 = done.push(cur);
            assert forall|i: int| 0 <= i < d2.len() implies plain_line(#[trigger] d2[i]) by {
                if i < done.len() {
                    assert(d2[i] == done[i]);
                }
            }
            assert(plain_line(Seq::<char>::empty()));
            lemma_lines_acc_plain(d2, Seq::empty(), r2);
        } else {
            let c2 = cur.push(rest[0]);
            assert(rest[0] != '\r') by {
                assert(rest[0] == rest[0]);
            }
            assert(plain_line(c2)) by {
                if c2.contains('\n') {
                    let k = choose|k: int| 0 <= k < c2.len() && c2[k] == '\n';
                    if k < cur.len() {
                        assert(cur[k] == '\n');
                    }
                }
                if c2.contains('\r') {
                    let k = choose|k: int| 0 <= k < c2.len() && c2[k] == '\r';
                    if k < cur.len() {
                        assert(cur[k] == '\r');
                    }
                }
            }
            lemma_lines_acc_plain(done, c2, r2);
        }
    }
}

/// Text without `\r` that ends in a newline is its lines joined back.
proof fn lemma_join_of_lines(done: Seq<Seq<char>>, cur: Seq<char>, rest: Seq<char>)
    requires
        (rest.len() == 0 && cur.len() == 0) || (rest.len() > 0 && rest.last() == '\n'),
        !cur.contains('\r'),
        !rest.contains('\r'),
    ensures
        join_lines(lines_acc(done, cur, rest)) == join_lines(done) + cur + rest,
    decreases rest.len(),
{
    if rest.len() == 0 {
        assert(join_lines(done) + cur + rest =~= join_lines(done));
    } else {
        let r2 = rest.drop_first();
        assert(!r2.contains('\r')) by {
            if r2.contains('\r') {
                let k = choose|k: int| 0 <= k < r2.len() && r2[k] == '\r';
                assert(rest[k + 1] == '\r');
            }
        }
        if r2.len() > 0 {
            assert(r2.last() == rest.last());
        }
        if rest[0] == '\n' {
            assert(strip_cr(cur) == cur) by {
                if cur.len() > 0 {
                    assert(cur[cur.len() - 1] == cur.last());
                }
            }
            lemma_join_of_lines(done.push(cur), Seq::empty(), r2);
            assert(done.push(cur).drop_last() =~= done);
            assert(join_lines(done.push(cur)) + Seq::<char>::empty() + r2 =~= join_lines(done) + cur + rest);
        } else {
            assert(r2.len() > 0);
            let c2 = cur.push(rest[0]);
            assert(!c2.contains('\r')) by {
                if c2.contains('\r') {
                    let k = choose|k: int| 0 <= k < c2.len() && c2[k] == '\r';
                    if k < cur.len() {
                        assert(cur[k] == '\r');
                    } else {
                        assert(rest[0] == '\r');
                    }
                }
            }
            lemma_join_of_lines(done, c2, r2);
            assert(join_lines(done) + c2 + r2 =~= join_lines(done) + cur + rest);
        }
    }
}

/// Appending `\n` to text without `\r` adds an empty last line exactly when
/// the text is empty or already ends in a newline.
proof fn lemma_lines_push_newline(done: Seq<Seq<char>>, cur: Seq<char>, rest: Seq<char>)
    requires
        !cur.contains('\r'),
        !rest.contains('\r'),
    ensures
        lines_acc(done, cur, rest.push('\n')) == if (rest.len() == 0 && cur.len() == 0) || (rest.len() > 0
            && rest.last() == '\n') {
            lines_acc(done, cur, rest).push(Seq::empty())
        } else {
            lines_acc(done, cur, rest)
        },
    decreases rest.len(),
{
    let e = Seq::<char>::empty();
    if rest.len() == 0 {
        assert(rest.push('\n') =~= seq!['\n']);
        assert(seq!['\n'].drop_first() =~= e);
        if cur.len() > 0 {
            assert(cur.last() == cur[cur.len() - 1]);
        }
        assert(strip_cr(cur) == cur) by {
            if cur.len() > 0 {
                assert(cur[cur.len() - 1] == cur.last());
            }
        }
        assert(lines_acc(done, cur, seq!['\n']) == lines_acc(done.push(strip_cr(cur)), e, e));
        assert(lines_acc(done, cur, rest) == if cur.len() == 0 { done } else { done.push(cur) });
        if cur.len() == 0 {
            assert(cur =~= e);
        }
    } else {
        let r2 = rest.drop_first();
        assert(rest.push('\n').drop_first() =~= r2.push('\n'));
        assert(rest.push('\n')[0] == rest[0]);
        if r2.len() > 0 {
            assert(r2.last() == rest.last());
        } else {
            assert(rest.last() == rest[0]);
        }
        assert(!r2.contains('\r')) by {
            if r2.contains('\r') {
                let k = choose|k: int| 0 <= k < r2.len() && r2[k] == '\r';
                assert(rest[k + 1] == '\r');
            }
        }
        if rest[0] == '\n' {
            assert(lines_acc(done, cur, rest.push('\n')) == lines_acc(done.push(strip_cr(cur)), e, r2.push('\n')));
            assert(lines_acc(done, cur, rest) == lines_acc(done.push(strip_cr(cur)), e, r2));
            lemma_lines_push_newline(done.push(strip_cr(cur)), e, r2);
        } else {
            let c2 = cur.push(rest[0]);
            assert(!c2.contains('\r')) by {
                if c2.contains('\r') {
                    let k = choose|k: int| 0 <= k < c2.len() && c2[k] == '\r';
                    if k < cur.len() {
                        assert(cur[k] == '\r');
                    } else {
                        assert(rest[0] == '\r');
                    }
                }
            }
            assert(lines_acc(done, cur, rest.push('\n')) == lines_acc(done, c2, r2.push('\n')));
            assert(lines_acc(done, cur, rest) == lines_acc(done, c2, r2));
            lemma_lines_push_newline(done, c2, r2);
        }
    }
}

/// Scanning past lines that do not match shifts the match found after them.
proof fn lemma_find_line_concat(a: Seq<Seq<char>>, b: Seq<Seq<char>>, m: Seq<char>, from: int)
    requires
        0 <= from <= a.len(),
        forall|i: int| from <= i < a.len() ==> trim(#[trigger] a[i]) != m,
    ensures
        find_line(a + b, m, from) == match find_line(b, m, 0) {
            Some(j) => Some(j + a.len()),
            None => None::<int>,
        },
    decreases a.len() + b.len() - from,
{
    if from < a.len() {
        assert((a + b)[from] == a[from]);
        lemma_find_line_concat(a, b, m, from + 1);
    } else {
        lemma_find_line_shift(a, b, m, 0);
    }
}

proof fn lemma_find_line_shift(a: Seq<Seq<char>>, b: Seq<Seq<char>>, m: Seq<char>, k: int)
    requires
        0 <= k <= b.len(),
    ensures
        find_line(a + b, m, a.len() + k) == match find_line(b, m, k) {
            Some(j) => Some(j + a.len()),
            None => None::<int>,
        },
    decreases b.len() - k,
{
    if k < b.len() {
        assert((a + b)[a.len() + k] == b[k]);
        lemma_find_line_shift(a, b, m, k + 1);
    }
}

/// No line from `from` on matches when the scan finds none.
proof fn lemma_find_line_none(ls: Seq<Seq<char>>, m: Seq<char>, from: int)
    requires
        0 <= from,
        find_line(ls, m, from) is None,
    ensures
        forall|i: int| from <= i < ls.len() ==> trim(#[trigger] ls[i]) != m,
    decreases ls.len() - from,
{
    if from < ls.len() {
        lemma_find_line_none(ls, m, from + 1);
    }
}

/// The scan finds the first matching line: none before it matches.
proof fn lemma_find_line_first(ls: Seq<Seq<char>>, m: Seq<char>, from: int)
    requires
        0 <= from,
    ensures
        find_line(ls, m, from) matches Some(i) ==> from <= i < ls.len() && trim(ls[i]) == m && forall|
            j: int,
        | from <= j < i ==> trim(#[trigger] ls[j]) != m,
    decreases ls.len() - from,
{
    if from < ls.len() && trim(ls[from]) != m {
        lemma_find_line_first(ls, m, from + 1);
    }
}

/// The markers in the two forms for which splicing is a fixed point after
/// one application: the first start marker precedes the first end marker,
/// or neither marker occurs.
pub open spec fn markers_in_order(content: Seq<char>) -> bool {
    let ls = lines(content);
    let s = find_line(ls, BLOCK_START@, 0);
    let e = find_line(ls, BLOCK_END@, 0);
    (s is Some && e is Some && s->0 <= e->0) || (s is None && e is None)
}

/// A block made of plain lines, opening with the start marker and closing
/// with the end marker, neither of which occurs in between.
pub open spec fn block_shaped(block: Seq<char>) -> bool {
    let bl = lines(block);
    &&& block == join_lines(bl)
    &&& plain_lines(bl)
    &&& bl.len() >= 2
    &&& trim(bl[0]) == BLOCK_START@
    &&& trim(bl[bl.len() - 1]) == BLOCK_END@
    &&& forall|i: int| 0 < i < bl.len() ==> trim(#[trigger] bl[i]) != BLOCK_START@
    &&& forall|i: int| 0 <= i < bl.len() - 1 ==> trim(#[trigger] bl[i]) != BLOCK_END@
}

proof fn lemma_markers_differ()
    ensures
        BLOCK_START@ != BLOCK_END@,
{
    reveal_strlit("# <clojure-toolchain:local-deps>");
    reveal_strlit("# </clojure-toolchain:local-deps>");
    assert(BLOCK_START@[3] != BLOCK_END@[3]);
}

/// Text made of the lines `pre`, then a block, then the lines `post`, where
/// `pre` holds no marker: its first start marker is the block's first line
/// and its first end marker the block's last.
proof fn lemma_framed_markers(pre: Seq<Seq<char>>, bl: Seq<Seq<char>>, post: Seq<Seq<char>>)
    requires
        bl.len() >= 2,
        trim(bl[0]) == BLOCK_START@,
        trim(bl[bl.len() - 1]) == BLOCK_END@,
        forall|i: int| 0 <= i < bl.len() - 1 ==> trim(#[trigger] bl[i]) != BLOCK_END@,
        forall|i: int| 0 <= i < pre.len() ==> trim(#[trigger] pre[i]) != BLOCK_START@,
        forall|i: int| 0 <= i < pre.len() ==> trim(#[trigger] pre[i]) != BLOCK_END@,
    ensures
        find_line(pre + bl + post, BLOCK_START@, 0) == Some(pre.len() as int),
        find_line(pre + bl + post, BLOCK_END@, 0) == Some(pre.len() + bl.len() - 1),
{
    assert(pre + bl + post =~= pre + (bl + post));
    lemma_find_line_concat(pre, bl + post, BLOCK_START@, 0);
    lemma_find_line_concat(pre, bl + post, BLOCK_END@, 0);
    assert((bl + post)[0] == bl[0]);
    assert(find_line(bl + post, BLOCK_START@, 0) == Some(0int));
    lemma_find_line_concat(bl.drop_last(), seq![bl.last()] + post, BLOCK_END@, 0);
    assert(bl.drop_last() + (seq![bl.last()] + post) =~= bl + post);
    assert forall|i: int| 0 <= i < bl.drop_last().len() implies trim(#[trigger] bl.drop_last()[i]) != BLOCK_END@ by {
        assert(bl.drop_last()[i] == bl[i]);
    }
    assert((seq![bl.last()] + post)[0] == bl.last());
    assert(bl.last() == bl[bl.len() - 1]);
    assert(find_line(seq![bl.last()] + post, BLOCK_END@, 0) == Some(0int));
}

/// Splicing a block is idempotent: once spliced, splicing the same block
/// again changes nothing. This holds for text without carriage returns
/// whose first start marker precedes its first end marker, or that has
/// neither marker.
proof fn lemma_splice_replace_fixed(content: Seq<char>, block: Seq<char>)
    requires
        block_shaped(block),
        !content.contains('\r'),
        ({
            let ls = lines(content);
            let s = find_line(ls, BLOCK_START@, 0);
            let e = find_line(ls, BLOCK_END@, 0);
            s is Some && e is Some && s->0 <= e->0
        }),
    ensures
        spliced(spliced(content, block), block) == spliced(content, block),
        ({
            let ls = lines(content);
            let si = find_line(ls, BLOCK_START@, 0)->0;
            let ei = find_line(ls, BLOCK_END@, 0)->0;
            let m = ls.take(si) + lines(block) + ls.skip(ei + 1);
            &&& lines(spliced(content, block)) == m
            &&& find_line(m, BLOCK_START@, 0) == Some(si)
            &&& find_line(m, BLOCK_END@, 0) == Some(si + lines(block).len() - 1)
        }),
{
    let ls = lines(content);
    let bl = lines(block);
    let s = find_line(ls, BLOCK_START@, 0);
    let e = find_line(ls, BLOCK_END@, 0);
    let es = Seq::<Seq<char>>::empty();
    let ec = Seq::<char>::empty();
    lemma_lines_acc_plain(es, ec, content);
    lemma_markers_differ();
        let si = s->0;
        let ei = e->0;
        lemma_find_line_first(ls, BLOCK_START@, 0);
        lemma_find_line_first(ls, BLOCK_END@, 0);
        let pre = ls.take(si);
        let post = ls.skip(ei + 1);
        let u = spliced(content, block);
        assert(u == join_lines(pre) + block + join_lines(post));
        lemma_join_lines_concat(pre, bl);
        lemma_join_lines_concat(pre + bl, post);
        assert(u == join_lines(pre + bl + post));
        let m = pre + bl + post;
        assert(plain_lines(m)) by {
            assert forall|i: int| 0 <= i < m.len() implies plain_line(#[trigger] m[i]) by {
                if i < si {
                    assert(m[i] == ls[i]);
                } else if i < si + bl.len() {
                    assert(m[i] == bl[i - si]);
                } else {
                    assert(m[i] == ls[i - si - bl.len() + ei + 1]);
                }
            }
        }
        lemma_lines_of_join(m);
        assert forall|i: int| 0 <= i < pre.len() implies trim(#[trigger] pre[i]) != BLOCK_START@ by {
            assert(pre[i] == ls[i]);
        }
        assert forall|i: int| 0 <= i < pre.len() implies trim(#[trigger] pre[i]) != BLOCK_END@ by {
            assert(pre[i] == ls[i]);
        }
        lemma_framed_markers(pre, bl, post);
        assert(m.take(si) =~= pre);
        assert(m.skip(si + bl.len() - 1 + 1) =~= post);
}

proof fn lemma_splice_append_fixed(content: Seq<char>, block: Seq<char>)
    requires
        block_shaped(block),
        !content.contains('\r'),
        ({
            let ls = lines(content);
            find_line(ls, BLOCK_START@, 0) is None && find_line(ls, BLOCK_END@, 0) is None
        }),
    ensures
        spliced(spliced(content, block), block) == spliced(content, block),
        ({
            let m = lines(pad_blank(content)) + lines(block);
            &&& lines(spliced(content, block)) == m
            &&& find_line(m, BLOCK_START@, 0) == Some(lines(pad_blank(content)).len() as int)
            &&& find_line(m, BLOCK_END@, 0) == Some(lines(pad_blank(content)).len() + lines(block).len() - 1)
        }),
{
    let ls = lines(content);
    let bl = lines(block);
    let s = find_line(ls, BLOCK_START@, 0);
    let e = find_line(ls, BLOCK_END@, 0);
    let es = Seq::<Seq<char>>::empty();
    let ec = Seq::<char>::empty();
    lemma_lines_acc_plain(es, ec, content);
    lemma_markers_differ();
        let pc = pad_blank(content);
        let u = spliced(content, block);
        assert(u == pc + block);
        lemma_find_line_none(ls, BLOCK_START@, 0);
        lemma_find_line_none(ls, BLOCK_END@, 0);
        // The padded text is its lines joined back, with at most one extra empty line.
        let pl = lines(pc);
        assert(!pc.contains('\r')) by {
            if pc.contains('\r') {
                let k = choose|k: int| 0 <= k < pc.len() && pc[k] == '\r';
                if k < content.len() {
                    assert(content[k] == '\r');
                }
            }
        }
        if pc.len() > 0 {
            assert(pc.last() == '\n');
        }
        lemma_join_of_lines(es, ec, pc);
        assert(join_lines(pl) == pc) by {
            assert(join_lines(es) + ec + pc =~= pc);
        }
        assert(forall|i: int| 0 <= i < pl.len() ==> trim(#[trigger] pl[i]) != BLOCK_START@ && trim(pl[i]) != BLOCK_END@) by {
            lemma_pad_lines(content);
            reveal_strlit("# <clojure-toolchain:local-deps>");
            reveal_strlit("# </clojure-toolchain:local-deps>");
            assert forall|i: int| 0 <= i < pl.len() implies trim(#[trigger] pl[i]) != BLOCK_START@ && trim(pl[i]) != BLOCK_END@ by {
                if i < ls.len() {
                    assert(pl[i] == ls[i]);
                } else {
                    assert(pl[i] == ec);
                    assert(trim(ec) =~= ec);
                }
            }
        }
        lemma_lines_acc_plain(es, ec, pc);
        let m = pl + bl + es;
        assert(m =~= pl + bl);
        lemma_join_lines_concat(pl, bl);
        assert(u == join_lines(m));
        assert(plain_lines(m)) by {
            assert forall|i: int| 0 <= i < m.len() implies plain_line(#[trigger] m[i]) by {
                if i < pl.len() {
                    assert(m[i] == pl[i]);
                } else {
                    assert(m[i] == bl[i - pl.len()]);
                }
            }
        }
        lemma_lines_of_join(m);
        assert forall|i: int| 0 <= i < pl.len() implies trim(#[trigger] pl[i]) != BLOCK_START@ by {}
        assert forall|i: int| 0 <= i < pl.len() implies trim(#[trigger] pl[i]) != BLOCK_END@ by {}
        lemma_framed_markers(pl, bl, es);
        assert(m.take(pl.len() as int) =~= pl);
        assert(m.skip(pl.len() + bl.len() - 1 + 1) =~= es);
        assert(join_lines(es) =~= ec);
        assert(join_lines(pl) + block + join_lines(es) =~= u);
}

/// Splicing a block is idempotent: once spliced, splicing the same block
/// again changes nothing. This holds for text without carriage returns
/// whose first start marker precedes its first end marker, or that has
/// neither marker.
pub proof fn law_splice_idempotent(content: Seq<char>, block: Seq<char>)
    requires
        block_shaped(block),
        !content.contains('\r'),
        markers_in_order(content),
    ensures
        splice_result(spliced(content, block), block) is None,
{
    let ls = lines(content);
    let s = find_line(ls, BLOCK_START@, 0);
    let e = find_line(ls, BLOCK_END@, 0);
    if s is Some && e is Some && s->0 <= e->0 {
        lemma_splice_replace_fixed(content, block);
    } else {
        lemma_splice_append_fixed(content, block);
    }
}

/// Splicing the managed block never creates a hand-written `fileGroups`
/// key: text with none outside its managed block still has none after the
/// block for dirs without line breaks is spliced in. This holds for text
/// without carriage returns whose first start marker precedes its first
/// end marker, or that has neither marker.
pub proof fn law_splice_keeps_groups_managed(content: Seq<char>, dirs: Seq<Seq<char>>)
    requires
        forall|i: int| 0 <= i < dirs.len() ==> !(#[trigger] dirs[i]).contains('\n'),
        !content.contains('\r'),
        markers_in_order(content),
        !unmanaged_groups(content),
    ensures
        !unmanaged_groups(spliced(content, rendered(dirs))),
{
    reveal_strlit("fileGroups:");
    lemma_rendered_block_shaped(dirs);
    let block = rendered(dirs);
    let ls = lines(content);
    let bl = lines(block);
    let s = find_line(ls, BLOCK_START@, 0);
    let e = find_line(ls, BLOCK_END@, 0);
    let u = spliced(content, block);
    let fg = "fileGroups:"@;
    assert forall|i: int| 0 <= i < ls.len() && !inside_block(i, s, e) implies !starts_with(trim_start(#[trigger] ls[i]), fg) by {}
    if s is Some && e is Some && s->0 <= e->0 {
        lemma_splice_replace_fixed(content, block);
        let si = s->0;
        let ei = e->0;
        let m = ls.take(si) + bl + ls.skip(ei + 1);
        let s2 = find_line(m, BLOCK_START@, 0);
        let e2 = find_line(m, BLOCK_END@, 0);
        lemma_find_line_bound(ls, BLOCK_END@, 0);
        lemma_find_line_bound(ls, BLOCK_START@, 0);
        assert(m.len() == si + bl.len() + ls.len() - ei - 1);
        assert forall|i: int| 0 <= i < m.len() && !inside_block(i, s2, e2) implies !starts_with(trim_start(#[trigger] m[i]), fg) by {
            if i < si {
                assert(m[i] == ls[i]);
            } else {
                assert(i > si + bl.len() - 1);
                let j = i - si - bl.len() + ei + 1;
                assert(m[i] == ls.skip(ei + 1)[i - si - bl.len()]);
                assert(m[i] == ls[j]);
                assert(!inside_block(j, s, e));
            }
        }
    } else {
        lemma_splice_append_fixed(content, block);
        lemma_pad_lines(content);
        let pl = lines(pad_blank(content));
        let m = pl + bl;
        let s2 = find_line(m, BLOCK_START@, 0);
        let e2 = find_line(m, BLOCK_END@, 0);
        assert forall|i: int| 0 <= i < m.len() && !inside_block(i, s2, e2) implies !starts_with(trim_start(#[trigger] m[i]), fg) by {
            assert(i < pl.len());
            assert(m[i] == pl[i]);
            if i < ls.len() {
                assert(!inside_block(i, s, e));
            } else {
                assert(pl[i] == Seq::<char>::empty());
                assert(trim_start(Seq::<char>::empty()) == Seq::<char>::empty());
            }
        }
    }
}

proof fn lemma_trim_end_first(s: Seq<char>)
    requires
        s.len() > 0,
        !is_ws(s[0]),
    ensures
        trim_end(s).len() > 0,
        trim_end(s)[0] == s[0],
    decreases s.len(),
{
    if is_ws(s.last()) {
        assert(s.len() > 1);
        assert(s.drop_last()[0] == s[0]);
        lemma_trim_end_first(s.drop_last());
    }
}

/// A line outside the managed block is a hand-written `fileGroups` key
/// whenever, after its leading whitespace, it begins with `fileGroups:`,
/// whatever follows on the line: appending such a line (indentation `w`,
/// rest `x`) to lines that hold no marker always makes the text count as
/// having an unmanaged `fileGroups` key.
pub proof fn law_hand_written_groups_detected(ls: Seq<Seq<char>>, w: Seq<char>, x: Seq<char>)
    requires
        plain_lines(ls),
        forall|i: int| 0 <= i < ls.len() ==> trim(#[trigger] ls[i]) != BLOCK_START@ && trim(ls[i]) != BLOCK_END@,
        forall|i: int| 0 <= i < w.len() ==> is_ws(#[trigger] w[i]) && w[i] != '\n' && w[i] != '\r',
        !x.contains('\n'),
        !x.contains('\r'),
    ensures
        unmanaged_groups(join_lines(ls) + w + "fileGroups:"@ + x + seq!['\n']),
{
    reveal_strlit("fileGroups:");
    reveal_strlit("# <clojure-toolchain:local-deps>");
    reveal_strlit("# </clojure-toolchain:local-deps>");
    let fg = "fileGroups:"@;
    let line = w + fg + x;
    let all = ls.push(line);
    assert(line[w.len() as int] == 'f');
    assert forall|i: int| 0 <= i < line.len() implies line[i] != '\n' by {
        if i < w.len() {
            assert(line[i] == w[i]);
        } else if i < w.len() + fg.len() {
            assert(line[i] == fg[i - w.len()]);
        } else {
            assert(line[i] == x[i - w.len() - fg.len()]);
        }
    }
    assert(line.last() != '\r') by {
        if x.len() > 0 {
            assert(line.last() == x[x.len() - 1]);
        } else {
            assert(line.last() == fg[fg.len() - 1]);
        }
    }
    assert(plain_lines(all)) by {
        assert forall|i: int| 0 <= i < all.len() implies plain_line(#[trigger] all[i]) by {
            if i < ls.len() {
                assert(all[i] == ls[i]);
            }
        }
    }
    let text = join_lines(ls) + w + fg + x + seq!['\n'];
    assert(join_lines(all) =~= text) by {
        assert(all.drop_last() =~= ls);
        assert(all.last() == line);
    }
    lemma_lines_of_join(all);
    assert forall|i: int| 0 <= i < w.len() implies is_ws(#[trigger] line[i]) by {
        assert(line[i] == w[i]);
    }
    lemma_trim_start_skip(line, w.len() as int);
    assert(line.skip(w.len() as int) =~= fg + x);
    lemma_trim_end_first(fg + x);
    assert(trim(line)[0] == 'f');
    assert(trim(line) != BLOCK_START@);
    assert(trim(line) != BLOCK_END@);
    assert(seq![line][0] == line);
    assert(find_line(seq![line], BLOCK_START@, 1) is None);
    assert(find_line(seq![line], BLOCK_END@, 1) is None);
    assert(find_line(seq![line], BLOCK_START@, 0) is None);
    assert(find_line(seq![line], BLOCK_END@, 0) is None);
    lemma_find_line_concat(ls, seq![line], BLOCK_START@, 0);
    lemma_find_line_concat(ls, seq![line], BLOCK_END@, 0);
    assert(ls + seq![line] =~= all);
    let i = ls.len() as int;
    assert(all[i] == line);
    assert((fg + x).take(fg.len() as int) =~= fg);
    let tl = lines(text);
    assert(tl == all);
    let st = find_line(tl, BLOCK_START@, 0);
    let en = find_line(tl, BLOCK_END@, 0);
    assert(st is None);
    assert(!inside_block(i, st, en));
    assert(starts_with(trim_start(tl[i]), fg));
    assert(text =~= join_lines(ls) + w + "fileGroups:"@ + x + seq!['\n']);
}

/// The lines of padded text: those of the text, then possibly one empty line.
proof fn lemma_pad_lines(content: Seq<char>)
    requires
        !content.contains('\r'),
    ensures
        lines(pad_blank(content)).len() >= lines(content).len(),
        forall|i: int| 0 <= i < lines(content).len() ==> #[trigger] lines(pad_blank(content))[i] == lines(content)[i],
        forall|i: int|
            lines(content).len() <= i < lines(pad_blank(content)).len() ==> #[trigger] lines(pad_blank(content))[i]
                == Seq::<char>::empty(),
{
    let es = Seq::<Seq<char>>::empty();
    let ec = Seq::<char>::empty();
    let c = content;
    if c.len() == 0 || ends_blank(c) {
    } else if c.last() == '\n' {
        lemma_lines_push_newline(es, ec, c);
    } else {
        lemma_lines_push_newline(es, ec, c);
        let c1 = c.push('\n');
        assert(!c1.contains('\r')) by {
            if c1.contains('\r') {
                let k = choose|k: int| 0 <= k < c1.len() && c1[k] == '\r';
                if k < c.len() {
                    assert(c[k] == '\r');
                }
            }
        }
        lemma_lines_push_newline(es, ec, c1);
        assert(c + seq!['\n', '\n'] =~= c1.push('\n'));
        assert(c1.last() == '\n');
    }
}

/// The glob line of one dir, without its newline.
pub open spec fn glob_line(d: Seq<char>) -> Seq<char> {
    "    - '/"@ + d + "/**/*'"@
}

/// The glob lines of the dirs, without newlines.
pub open spec fn glob_line_seq(dirs: Seq<Seq<char>>) -> Seq<Seq<char>> {
    dirs.map_values(|d: Seq<char>| glob_line(d))
}

/// The lines of the managed block for the given dirs.
pub open spec fn rendered_lines(dirs: Seq<Seq<char>>) -> Seq<Seq<char>> {
    seq![
        BLOCK_START@,
        "# Generated from deps.edn's transitive :local/root closure \u{2014} the source"@,
        "# dirs of every local dependency. Do not edit: project sync (any moon run,"@,
        "# or `moon sync projects`) refreshes it. Reference it from tasks as an"@,
        "# input: '@group(localDeps)'."@,
        "fileGroups:"@,
    ] + (if dirs.len() == 0 {
        seq!["  localDeps: []"@]
    } else {
        seq!["  localDeps:"@] + glob_line_seq(dirs)
    }) + seq![BLOCK_END@]
}

proof fn lemma_glob_lines(dirs: Seq<Seq<char>>)
    ensures
        glob_lines(dirs) == join_lines(glob_line_seq(dirs)),
    decreases dirs.len(),
{
    reveal_strlit("/**/*'\n");
    reveal_strlit("/**/*'");
    if dirs.len() > 0 {
        lemma_glob_lines(dirs.drop_last());
        assert(glob_line_seq(dirs).drop_last() =~= glob_line_seq(dirs.drop_last()));
        assert(glob_line_seq(dirs).last() == glob_line(dirs.last()));
        assert("/**/*'\n"@ =~= "/**/*'"@ + seq!['\n']);
        assert(glob_lines(dirs.drop_last()) + "    - '/"@ + dirs.last() + "/**/*'\n"@ =~= join_lines(
            glob_line_seq(dirs.drop_last()),
        ) + glob_line(dirs.last()) + seq!['\n']);
    } else {
        assert(glob_line_seq(dirs) =~= Seq::<Seq<char>>::empty());
    }
}

proof fn lemma_join_lines_cons(a: Seq<char>, rest: Seq<Seq<char>>)
    ensures
        join_lines(seq![a] + rest) == a + seq!['\n'] + join_lines(rest),
{
    lemma_join_lines_concat(seq![a], rest);
    assert(seq![a].drop_last() =~= Seq::<Seq<char>>::empty());
    assert(seq![a].last() == a);
    assert(join_lines(Seq::<Seq<char>>::empty()) + a + seq!['\n'] =~= a + seq!['\n']);
}

/// The rendered block is its lines joined.
proof fn lemma_rendered_join(dirs: Seq<Seq<char>>)
    ensures
        rendered(dirs) == join_lines(rendered_lines(dirs)),
{
    reveal_strlit("# Generated from deps.edn's transitive :local/root closure \u{2014} the source\n# dirs of every local dependency. Do not edit: project sync (any moon run,\n# or `moon sync projects`) refreshes it. Reference it from tasks as an\n# input: '@group(localDeps)'.\n");
    reveal_strlit("# Generated from deps.edn's transitive :local/root closure \u{2014} the source");
    reveal_strlit("# dirs of every local dependency. Do not edit: project sync (any moon run,");
    reveal_strlit("# or `moon sync projects`) refreshes it. Reference it from tasks as an");
    reveal_strlit("# input: '@group(localDeps)'.");
    reveal_strlit("fileGroups:\n  localDeps: []\n");
    reveal_strlit("fileGroups:\n  localDeps:\n");
    reveal_strlit("fileGroups:");
    reveal_strlit("  localDeps: []");
    reveal_strlit("  localDeps:");
    let h1 = "# Generated from deps.edn's transitive :local/root closure \u{2014} the source"@;
    let h2 = "# dirs of every local dependency. Do not edit: project sync (any moon run,"@;
    let h3 = "# or `moon sync projects`) refreshes it. Reference it from tasks as an"@;
    let h4 = "# input: '@group(localDeps)'."@;
    let nl = seq!['\n'];
    assert(header() =~= h1 + nl + h2 + nl + h3 + nl + h4 + nl);
    let tail = if dirs.len() == 0 {
        seq!["  localDeps: []"@]
    } else {
        seq!["  localDeps:"@] + glob_line_seq(dirs)
    };
    let rl = rendered_lines(dirs);
    assert(rl =~= seq![BLOCK_START@] + (seq![h1] + (seq![h2] + (seq![h3] + (seq![h4] + (seq!["fileGroups:"@] + (tail + seq![BLOCK_END@])))))));
    let j_end = join_lines(seq![BLOCK_END@]);
    lemma_join_lines_cons(BLOCK_END@, Seq::empty());
    assert(seq![BLOCK_END@] + Seq::<Seq<char>>::empty() =~= seq![BLOCK_END@]);
    assert(j_end =~= BLOCK_END@ + nl);
    lemma_join_lines_concat(tail, seq![BLOCK_END@]);
    let j_tail = join_lines(tail);
    if dirs.len() == 0 {
        lemma_join_lines_cons("  localDeps: []"@, Seq::empty());
        assert(seq!["  localDeps: []"@] + Seq::<Seq<char>>::empty() =~= seq!["  localDeps: []"@]);
    } else {
        lemma_join_lines_cons("  localDeps:"@, glob_line_seq(dirs));
        lemma_glob_lines(dirs);
    }
    lemma_join_lines_cons("fileGroups:"@, tail + seq![BLOCK_END@]);
    lemma_join_lines_cons(h4, seq!["fileGroups:"@] + (tail + seq![BLOCK_END@]));
    lemma_join_lines_cons(h3, seq![h4] + (seq!["fileGroups:"@] + (tail + seq![BLOCK_END@])));
    lemma_join_lines_cons(h2, seq![h3] + (seq![h4] + (seq!["fileGroups:"@] + (tail + seq![BLOCK_END@]))));
    lemma_join_lines_cons(h1, seq![h2] + (seq![h3] + (seq![h4] + (seq!["fileGroups:"@] + (tail + seq![BLOCK_END@])))));
    lemma_join_lines_cons(BLOCK_START@, seq![h1] + (seq![h2] + (seq![h3] + (seq![h4] + (seq!["fileGroups:"@] + (tail + seq![BLOCK_END@]))))));
    if dirs.len() == 0 {
        assert("fileGroups:\n  localDeps: []\n"@ =~= "fileGroups:"@ + nl + "  localDeps: []"@ + nl);
    } else {
        assert("fileGroups:\n  localDeps:\n"@ =~= "fileGroups:"@ + nl + "  localDeps:"@ + nl);
    }
    assert(rendered(dirs) =~= join_lines(rl));
}

/// No character of the text is `\n` or `\r`, checked from the front.
pub open spec fn plain_from(s: Seq<char>, k: int) -> bool
    decreases s.len() - k,
{
    k < 0 || k >= s.len() || (s[k] != '\n' && s[k] != '\r' && plain_from(s, k + 1))
}

proof fn lemma_plain_from(s: Seq<char>, k: int)
    requires
        0 <= k,
        plain_from(s, k),
    ensures
        forall|i: int| k <= i < s.len() ==> s[i] != '\n' && s[i] != '\r',
    decreases s.len() - k,
{
    if k < s.len() {
        lemma_plain_from(s, k + 1);
    }
}

proof fn lemma_plain_chars(s: Seq<char>)
    requires
        plain_from(s, 0),
    ensures
        plain_line(s),
{
    lemma_plain_from(s, 0);
    if s.len() > 0 {
        assert(s.last() == s[s.len() - 1]);
    }
}

/// A glob line is plain for a dir without line feeds: it ends with `'`.
proof fn lemma_glob_line_plain(d: Seq<char>)
    requires
        !d.contains('\n'),
    ensures
        plain_line(glob_line(d)),
{
    reveal_strlit("    - '/");
    reveal_strlit("/**/*'");
    let a = "    - '/"@;
    let b = "/**/*'"@;
    let g = glob_line(d);
    assert(g =~= a + d + b);
    assert forall|i: int| 0 <= i < g.len() implies g[i] != '\n' by {
        if i < a.len() {
            assert(g[i] == a[i]);
        } else if i < a.len() + d.len() {
            assert(g[i] == d[i - a.len()]);
        } else {
            assert(g[i] == b[i - a.len() - d.len()]);
        }
    }
    assert(g.last() == b.last());
}

proof fn lemma_trim_start_skip(s: Seq<char>, k: int)
    requires
        0 <= k < s.len(),
        forall|i: int| 0 <= i < k ==> is_ws(#[trigger] s[i]),
        !is_ws(s[k]),
    ensures
        trim_start(s) == s.skip(k),
    decreases k,
{
    if k == 0 {
        assert(s.skip(0) =~= s);
    } else {
        let t = s.drop_first();
        assert forall|i: int| 0 <= i < k - 1 implies is_ws(#[trigger] t[i]) by {
            assert(t[i] == s[i + 1]);
        }
        assert(t[k - 1] == s[k]);
        assert(is_ws(s[0]));
        lemma_trim_start_skip(t, k - 1);
        assert(t.skip(k - 1) =~= s.skip(k));
    }
}

/// A line whose first and last characters are not whitespace trims to itself.
proof fn lemma_trim_same(s: Seq<char>)
    requires
        s.len() > 0,
        !is_ws(s[0]),
        !is_ws(s.last()),
    ensures
        trim(s) == s,
{
}

/// The first character of a line once trimmed, for a line with `k`
/// leading spaces and a last character that is not whitespace.
proof fn lemma_trim_first(s: Seq<char>, k: int)
    requires
        0 <= k < s.len(),
        forall|i: int| 0 <= i < k ==> #[trigger] s[i] == ' ',
        !is_ws(s[k]),
        !is_ws(s.last()),
    ensures
        trim(s).len() > 0,
        trim(s)[0] == s[k],
{
    assert forall|i: int| 0 <= i < k implies is_ws(#[trigger] s[i]) by {
        assert(s[i] == ' ');
    }
    lemma_trim_start_skip(s, k);
    let t = s.skip(k);
    assert(t.last() == s.last());
    assert(t[0] == s[k]);
}

#[verifier::rlimit(50)]
proof fn lemma_header_line_1_plain()
    ensures
        plain_line("# Generated from deps.edn's transitive :local/root closure \u{2014} the source"@),
{
    reveal_strlit("# Generated from deps.edn's transitive :local/root closure \u{2014} the source");
    reveal_with_fuel(plain_from, 80);
    lemma_plain_chars("# Generated from deps.edn's transitive :local/root closure \u{2014} the source"@);
}

#[verifier::rlimit(50)]
proof fn lemma_header_line_2_plain()
    ensures
        plain_line("# dirs of every local dependency. Do not edit: project sync (any moon run,"@),
{
    reveal_strlit("# dirs of every local dependency. Do not edit: project sync (any moon run,");
    reveal_with_fuel(plain_from, 80);
    lemma_plain_chars("# dirs of every local dependency. Do not edit: project sync (any moon run,"@);
}

#[verifier::rlimit(50)]
proof fn lemma_header_line_3_plain()
    ensures
        plain_line("# or `moon sync projects`) refreshes it. Reference it from tasks as an"@),
{
    reveal_strlit("# or `moon sync projects`) refreshes it. Reference it from tasks as an");
    reveal_with_fuel(plain_from, 80);
    lemma_plain_chars("# or `moon sync projects`) refreshes it. Reference it from tasks as an"@);
}

#[verifier::rlimit(50)]
proof fn lemma_header_line_4_plain()
    ensures
        plain_line("# input: '@group(localDeps)'."@),
{
    reveal_strlit("# input: '@group(localDeps)'.");
    reveal_with_fuel(plain_from, 80);
    lemma_plain_chars("# input: '@group(localDeps)'."@);
}

proof fn lemma_rendered_lines_shape(dirs: Seq<Seq<char>>)
    requires
        forall|i: int| 0 <= i < dirs.len() ==> !(#[trigger] dirs[i]).contains('\n'),
    ensures
        plain_lines(rendered_lines(dirs)),
        rendered_lines(dirs).len() >= 2,
        trim(rendered_lines(dirs)[0]) == BLOCK_START@,
        trim(rendered_lines(dirs)[rendered_lines(dirs).len() - 1]) == BLOCK_END@,
        forall|i: int|
            0 < i < rendered_lines(dirs).len() ==> trim(#[trigger] rendered_lines(dirs)[i]) != BLOCK_START@,
        forall|i: int|
            0 <= i < rendered_lines(dirs).len() - 1 ==> trim(#[trigger] rendered_lines(dirs)[i]) != BLOCK_END@,
{
    reveal_strlit("# <clojure-toolchain:local-deps>");
    reveal_strlit("# </clojure-toolchain:local-deps>");
    reveal_strlit("# Generated from deps.edn's transitive :local/root closure \u{2014} the source");
    reveal_strlit("# dirs of every local dependency. Do not edit: project sync (any moon run,");
    reveal_strlit("# or `moon sync projects`) refreshes it. Reference it from tasks as an");
    reveal_strlit("# input: '@group(localDeps)'.");
    reveal_strlit("fileGroups:");
    reveal_strlit("  localDeps: []");
    reveal_strlit("  localDeps:");
    reveal_strlit("    - '/");
    reveal_strlit("/**/*'");
    reveal_with_fuel(plain_from, 40);
    let st = BLOCK_START@;
    let en = BLOCK_END@;
    let h1 = "# Generated from deps.edn's transitive :local/root closure \u{2014} the source"@;
    let h2 = "# dirs of every local dependency. Do not edit: project sync (any moon run,"@;
    let h3 = "# or `moon sync projects`) refreshes it. Reference it from tasks as an"@;
    let h4 = "# input: '@group(localDeps)'."@;
    let fg = "fileGroups:"@;
    let le = "  localDeps: []"@;
    let ld = "  localDeps:"@;
    let rl = rendered_lines(dirs);
    lemma_plain_chars(st);
    lemma_plain_chars(en);
    lemma_header_line_1_plain();
    lemma_header_line_2_plain();
    lemma_header_line_3_plain();
    lemma_header_line_4_plain();
    lemma_plain_chars(fg);
    lemma_plain_chars(le);
    lemma_plain_chars(ld);
    lemma_plain_chars("    - '/"@);
    lemma_plain_chars("/**/*'"@);
    lemma_trim_same(st);
    lemma_trim_same(en);
    lemma_trim_same(h1);
    lemma_trim_same(h2);
    lemma_trim_same(h3);
    lemma_trim_same(h4);
    lemma_trim_same(fg);
    lemma_trim_first(le, 2);
    lemma_trim_first(ld, 2);
    assert(st[3] != en[3]);
    assert(h1[2] != st[2] && h1[2] != en[2]);
    assert(h2[2] != st[2] && h2[2] != en[2]);
    assert(h3[2] != st[2] && h3[2] != en[2]);
    assert(h4[2] != st[2] && h4[2] != en[2]);
    assert(fg[0] != st[0] && fg[0] != en[0]);
    assert forall|i: int| 0 <= i < dirs.len() implies {
        &&& plain_line(#[trigger] glob_line(dirs[i]))
        &&& trim(glob_line(dirs[i])) != st
        &&& trim(glob_line(dirs[i])) != en
    } by {
        let g = glob_line(dirs[i]);
        lemma_glob_line_plain(dirs[i]);
        assert(g[4] == '-');
        assert(g.last() == '\'');
        assert(forall|j: int| 0 <= j < 4 ==> #[trigger] g[j] == ' ');
        lemma_trim_first(g, 4);
    }
    let n = rl.len();
    let tail = if dirs.len() == 0 {
        seq![le]
    } else {
        seq![ld] + glob_line_seq(dirs)
    };
    assert(rl =~= seq![st, h1, h2, h3, h4, fg] + tail + seq![en]);
    assert forall|i: int| 0 <= i < n implies {
        &&& plain_line(#[trigger] rl[i])
        &&& (i > 0 ==> trim(rl[i]) != st)
        &&& (i < n - 1 ==> trim(rl[i]) != en)
    } by {
        if i >= 6 && i < n - 1 {
            if dirs.len() == 0 {
                assert(rl[i] == le);
            } else if i == 6 {
                assert(rl[i] == ld);
            } else {
                assert(rl[i] == glob_line_seq(dirs)[i - 7]);
                assert(glob_line_seq(dirs)[i - 7] == glob_line(dirs[i - 7]));
            }
        }
    }
}

/// The rendered block (for dirs without line breaks) opens with the start
/// marker, closes with the end marker, and holds neither in between.
pub proof fn lemma_rendered_block_shaped(dirs: Seq<Seq<char>>)
    requires
        forall|i: int| 0 <= i < dirs.len() ==> !(#[trigger] dirs[i]).contains('\n'),
    ensures
        block_shaped(rendered(dirs)),
        lines(rendered(dirs)) == rendered_lines(dirs),
{
    lemma_rendered_lines_shape(dirs);
    lemma_rendered_join(dirs);
    lemma_lines_of_join(rendered_lines(dirs));
}

/// The managed block never counts as a hand-written `fileGroups` key: its
/// own `fileGroups:` line lies between its markers.
pub proof fn law_rendered_block_is_managed(dirs: Seq<Seq<char>>)
    requires
        forall|i: int| 0 <= i < dirs.len() ==> !(#[trigger] dirs[i]).contains('\n'),
    ensures
        !unmanaged_groups(rendered(dirs)),
{
    lemma_rendered_block_shaped(dirs);
    let rl = rendered_lines(dirs);
    let es = Seq::<Seq<char>>::empty();
    lemma_framed_markers(es, rl, es);
    assert(es + rl + es =~= rl);
    let s = find_line(rl, BLOCK_START@, 0);
    let e = find_line(rl, BLOCK_END@, 0);
    assert forall|i: int| 0 <= i < rl.len() implies inside_block(i, s, e) by {}
}

/// Splicing a freshly rendered block is idempotent; this is the law above
/// for the blocks that project sync writes.
pub proof fn law_splice_rendered_idempotent(content: Seq<char>, dirs: Seq<Seq<char>>)
    requires
        forall|i: int| 0 <= i < dirs.len() ==> !(#[trigger] dirs[i]).contains('\n'),
        !content.contains('\r'),
        markers_in_order(content),
    ensures
        splice_result(spliced(content, rendered(dirs)), rendered(dirs)) is None,
{
    lemma_rendered_block_shaped(dirs);
    law_splice_idempotent(content, rendered(dirs));
}

} // verus!
