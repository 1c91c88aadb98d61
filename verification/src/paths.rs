//! Lexical path arithmetic on `/`-separated paths: splitting into
//! components, joining, and resolving `.` and `..` without touching the
//! filesystem.
use vstd::prelude::*;
use crate::text::{push_char, string_of};

verus! {

/// Splitting `rest` at `/`, given the pieces `done` already cut off and
/// the piece `cur` being collected.
pub open spec fn split_acc(done: Seq<Seq<char>>, cur: Seq<char>, rest: Seq<char>) -> Seq<Seq<char>>
    decreases rest.len(),
{
    if rest.len() == 0 {
        done.push(cur)
    } else if rest[0] == '/' {
        split_acc(done.push(cur), Seq::empty(), rest.drop_first())
    } else {
        split_acc(done, cur.push(rest[0]), rest.drop_first())
    }
}

/// The pieces of `s` between `/` separators, empty ones included, as
/// `str::split('/')` yields them.
pub open spec fn split_slash(s: Seq<char>) -> Seq<Seq<char>> {
    split_acc(Seq::empty(), Seq::empty(), s)
}

/// The pieces joined with `/` between them.
pub open spec fn join_slash(parts: Seq<Seq<char>>) -> Seq<char>
    decreases parts.len(),
{
    if parts.len() == 0 {
        Seq::empty()
    } else if parts.len() == 1 {
        parts[0]
    } else {
        join_slash(parts.drop_last()) + seq!['/'] + parts.last()
    }
}

/// Splits at `/`, as `str::split('/')` does.
pub fn split_slash_vec(v: &Vec<char>) -> (r: Vec<Vec<char>>)
    ensures
        r@.map_values(|p: Vec<char>| p@) == split_slash(v@),
{
    let mut done: Vec<Vec<char>> = Vec::new();
    let mut cur: Vec<char> = Vec::new();
    let mut i: usize = 0;
    assert(v@.skip(0) =~= v@);
    assert(done@.map_values(|p: Vec<char>| p@) =~= Seq::<Seq<char>>::empty());
    while i < v.len()
        invariant
            i <= v.len(),
            split_slash(v@) == split_acc(done@.map_values(|p: Vec<char>| p@), cur@, v@.skip(i as int)),
        decreases v.len() - i,
    {
        assert(v@.skip(i as int).drop_first() =~= v@.skip(i + 1));
        assert(v@.skip(i as int)[0] == v@[i as int]);
        let ghost before = done@.map_values(|p: Vec<char>| p@);
        if v[i] == '/' {
            let piece = cur;
            cur = Vec::new();
            done.push(piece);
            assert(done@.map_values(|p: Vec<char>| p@) =~= before.push(piece@));
            assert(cur@ =~= Seq::<char>::empty());
        } else {
            cur.push(v[i]);
        }
        i = i + 1;
    }
    let ghost before = done@.map_values(|p: Vec<char>| p@);
    let piece = cur;
    done.push(piece);
    assert(done@.map_values(|p: Vec<char>| p@) =~= before.push(piece@));
    assert(v@.skip(i as int).len() == 0);
    done
}

/// Joins with `/` into a string.
pub fn join_slash_string(parts: &Vec<Vec<char>>) -> (r: String)
    ensures
        r@ == join_slash(parts@.map_values(|p: Vec<char>| p@)),
{
    let mut out = String::new();
    let mut i: usize = 0;
    while i < parts.len()
        invariant
            i <= parts.len(),
            out@ == join_slash(parts@.map_values(|p: Vec<char>| p@).take(i as int)),
        decreases parts.len() - i,
    {
        let ghost ps = parts@.map_values(|p: Vec<char>| p@);
        assert(ps.take(i + 1).drop_last() =~= ps.take(i as int));
        assert(ps.take(i + 1).last() == parts@[i as int]@);
        if i > 0 {
            push_char(&mut out, '/');
        } else {
            assert(join_slash(ps.take(0)) =~= Seq::<char>::empty());
        }
        let piece = &parts[i];
        let mut j: usize = 0;
        let ghost start = out@;
        while j < piece.len()
            invariant
                j <= piece.len(),
                out@ == start + piece@.take(j as int),
            decreases piece.len() - j,
        {
            push_char(&mut out, piece[j]);
            assert(piece@.take(j + 1) =~= piece@.take(j as int).push(piece@[j as int]));
            j = j + 1;
        }
        assert(piece@.take(piece.len() as int) =~= piece@);
        if i == 0 {
            assert(out@ =~= piece@);
        }
        i = i + 1;
    }
    assert(parts@.map_values(|p: Vec<char>| p@).take(parts.len() as int) =~= parts@.map_values(
        |p: Vec<char>| p@,
    ));
    out
}

/// The piece `.`.
pub open spec fn dot() -> Seq<char> {
    seq!['.']
}

/// The piece `..`.
pub open spec fn dot_dot() -> Seq<char> {
    seq!['.', '.']
}

/// The pieces that are neither empty nor `.`, in order.
pub open spec fn keep_names(comps: Seq<Seq<char>>) -> Seq<Seq<char>>
    decreases comps.len(),
{
    if comps.len() == 0 {
        Seq::empty()
    } else {
        let c = comps.last();
        keep_names(comps.drop_last()) + if c.len() > 0 && c != dot() {
            seq![c]
        } else {
            Seq::empty()
        }
    }
}

/// Walks `comps` from the directory `stack`: empty and `.` pieces stay,
/// `..` goes up (failing above the root), other pieces go down.
pub open spec fn resolve_rel(stack: Seq<Seq<char>>, comps: Seq<Seq<char>>) -> Option<Seq<Seq<char>>>
    decreases comps.len(),
{
    if comps.len() == 0 {
        Some(stack)
    } else {
        let c = comps[0];
        if c.len() == 0 || c == dot() {
            resolve_rel(stack, comps.drop_first())
        } else if c == dot_dot() {
            if stack.len() == 0 {
                None
            } else {
                resolve_rel(stack.drop_last(), comps.drop_first())
            }
        } else {
            resolve_rel(stack.push(c), comps.drop_first())
        }
    }
}

/// Where a `:local/root` value leads from a workspace-relative project
/// source dir: the dependency's workspace-relative source dir, `.` for the
/// workspace root, or nothing when the value is absolute (starts with `/`),
/// holds a `:` (a drive or URL), or climbs above the workspace root.
pub open spec fn rel_source(base: Seq<char>, local_root: Seq<char>) -> Option<Seq<char>> {
    if (local_root.len() > 0 && local_root[0] == '/') || local_root.contains(':') {
        None
    } else {
        match resolve_rel(keep_names(split_slash(base)), split_slash(local_root)) {
            None => None,
            Some(st) => Some(
                if st.len() == 0 {
                    dot()
                } else {
                    join_slash(st)
                },
            ),
        }
    }
}

fn is_dot_vec(c: &Vec<char>) -> (r: bool)
    ensures
        r == (c@ == dot()),
{
    if c.len() == 1 && c[0] == '.' {
        assert(c@ =~= dot());
        true
    } else {
        false
    }
}

fn is_dot_dot_vec(c: &Vec<char>) -> (r: bool)
    ensures
        r == (c@ == dot_dot()),
{
    if c.len() == 2 && c[0] == '.' && c[1] == '.' {
        assert(c@ =~= dot_dot());
        true
    } else {
        false
    }
}

fn has_colon(v: &Vec<char>) -> (r: bool)
    ensures
        r == v@.contains(':'),
{
    let mut i: usize = 0;
    while i < v.len()
        invariant
            i <= v.len(),
            forall|j: int| 0 <= j < i ==> v@[j] != ':',
        decreases v.len() - i,
    {
        if v[i] == ':' {
            assert(v@[i as int] == ':');
            return true;
        }
        i = i + 1;
    }
    false
}

/// The pieces of a path that are neither empty nor `.`.
fn names_of(v: &Vec<char>) -> (r: Vec<Vec<char>>)
    ensures
        r@.map_values(|p: Vec<char>| p@) == keep_names(split_slash(v@)),
{
    let parts = split_slash_vec(v);
    let ghost bp = parts@.map_values(|p: Vec<char>| p@);
    let mut out: Vec<Vec<char>> = Vec::new();
    let mut i: usize = 0;
    while i < parts.len()
        invariant
            i <= parts.len(),
            bp == parts@.map_values(|p: Vec<char>| p@),
            out@.map_values(|p: Vec<char>| p@) == keep_names(bp.take(i as int)),
        decreases parts.len() - i,
    {
        assert(bp.take(i + 1).drop_last() =~= bp.take(i as int));
        assert(bp.take(i + 1).last() == parts@[i as int]@);
        let ghost before = out@.map_values(|p: Vec<char>| p@);
        if parts[i].len() > 0 && !is_dot_vec(&parts[i]) {
            out.push(parts[i].clone());
            assert(out@.map_values(|p: Vec<char>| p@) =~= before + seq![parts@[i as int]@]);
        } else {
            assert(before + Seq::<Seq<char>>::empty() =~= before);
        }
        i = i + 1;
    }
    assert(bp.take(parts.len() as int) =~= bp);
    out
}

/// Walks the names of a path lexically: `..` removes the last name kept so
/// far, or is kept itself when there is none (nothing kept, or only `..`s
/// that already climb past the start); other names are kept.
pub open spec fn lexical_walk(stack: Seq<Seq<char>>, comps: Seq<Seq<char>>) -> Seq<Seq<char>>
    decreases comps.len(),
{
    if comps.len() == 0 {
        stack
    } else if comps[0] == dot_dot() {
        if stack.len() > 0 && stack.last() != dot_dot() {
            lexical_walk(stack.drop_last(), comps.drop_first())
        } else {
            lexical_walk(stack.push(comps[0]), comps.drop_first())
        }
    } else {
        lexical_walk(stack.push(comps[0]), comps.drop_first())
    }
}

/// A path with `.` and `..` resolved lexically: the names it keeps, behind a
/// leading `/` when the path is absolute. A `..` that climbs past the start
/// is kept.
pub open spec fn normal_path(p: Seq<char>) -> Seq<char> {
    let comps = lexical_walk(Seq::empty(), keep_names(split_slash(p)));
    if p.len() > 0 && p[0] == '/' {
        seq!['/'] + join_slash(comps)
    } else {
        join_slash(comps)
    }
}

/// Lexically normalize a path: resolve `.` and `..` components without
/// touching the filesystem. `..` past the root is preserved.
pub fn normalize_path(path: &str) -> (r: String)
    ensures
        r@ == normal_path(path@),
        keep_names(split_slash(r@)) == normal_names(path@),
        clean(normal_names(path@)),
        dots_first(normal_names(path@)),
        (r@.len() > 0 && r@[0] == '/') == (path@.len() > 0 && path@[0] == '/'),
{
    proof {
        law_normal_path_shape(path@);
    }
    let v = crate::text::chars_of(path);
    let names = names_of(&v);
    let ghost ns = names@.map_values(|p: Vec<char>| p@);
    let mut stack: Vec<Vec<char>> = Vec::new();
    let mut j: usize = 0;
    assert(ns.skip(0) =~= ns);
    assert(stack@.map_values(|p: Vec<char>| p@) =~= Seq::<Seq<char>>::empty());
    while j < names.len()
        invariant
            j <= names.len(),
            ns == names@.map_values(|p: Vec<char>| p@),
            lexical_walk(Seq::empty(), ns) == lexical_walk(
                stack@.map_values(|p: Vec<char>| p@),
                ns.skip(j as int),
            ),
        decreases names.len() - j,
    {
        assert(ns.skip(j as int).drop_first() =~= ns.skip(j + 1));
        assert(ns.skip(j as int)[0] == names@[j as int]@);
        let ghost before = stack@.map_values(|p: Vec<char>| p@);
        let c = &names[j];
        if is_dot_dot_vec(c) && stack.len() > 0 && !is_dot_dot_vec(&stack[stack.len() - 1]) {
            assert(stack@[stack.len() - 1]@ == before.last());
            stack.pop();
            assert(stack@.map_values(|p: Vec<char>| p@) =~= before.drop_last());
        } else {
            stack.push(c.clone());
            assert(stack@.map_values(|p: Vec<char>| p@) =~= before.push(c@));
        }
        j = j + 1;
    }
    assert(ns.skip(names.len() as int).len() == 0);
    let joined = join_slash_string(&stack);
    if v.len() > 0 && v[0] == '/' {
        let mut out = String::new();
        push_char(&mut out, '/');
        out.append(joined.as_str());
        assert(out@ =~= seq!['/'] + joined@);
        out
    } else {
        joined
    }
}

/// Resolve a `:local/root` value against a workspace-relative project
/// source dir, returning the dependency's workspace-relative source dir.
/// Returns `None` when the path is absolute or escapes the workspace root.
pub fn normalize_rel_source(base_source: &str, local_root: &str) -> (r: Option<String>)
    ensures
        r.deep_view() == rel_source(base_source@, local_root@),
{
    let lr = crate::text::chars_of(local_root);
    if (lr.len() > 0 && lr[0] == '/') || has_colon(&lr) {
        return None;
    }
    let base = crate::text::chars_of(base_source);
    let mut stack = names_of(&base);
    let ghost bp = split_slash(base_source@);
    let parts = split_slash_vec(&lr);
    let ghost lp = parts@.map_values(|p: Vec<char>| p@);
    let mut j: usize = 0;
    assert(lp.skip(0) =~= lp);
    while j < parts.len()
        invariant
            j <= parts.len(),
            lp == parts@.map_values(|p: Vec<char>| p@),
            bp == split_slash(base_source@),
            lp == split_slash(local_root@),
            !((local_root@.len() > 0 && local_root@[0] == '/') || local_root@.contains(':')),
            resolve_rel(keep_names(bp), lp) == resolve_rel(
                stack@.map_values(|p: Vec<char>| p@),
                lp.skip(j as int),
            ),
        decreases parts.len() - j,
    {
        assert(lp.skip(j as int).drop_first() =~= lp.skip(j + 1));
        assert(lp.skip(j as int)[0] == parts@[j as int]@);
        let ghost before = stack@.map_values(|p: Vec<char>| p@);
        let c = &parts[j];
        if c.len() == 0 || is_dot_vec(c) {
        } else if is_dot_dot_vec(c) {
            if stack.len() == 0 {
                assert(before.len() == 0);
                assert(lp.skip(j as int).len() > 0);
                assert(resolve_rel(before, lp.skip(j as int)) is None);
                return None;
            }
            stack.pop();
            assert(stack@.map_values(|p: Vec<char>| p@) =~= before.drop_last());
        } else {
            stack.push(c.clone());
            assert(stack@.map_values(|p: Vec<char>| p@) =~= before.push(c@));
        }
        j = j + 1;
    }
    assert(lp.skip(parts.len() as int).len() == 0);
    if stack.len() == 0 {
        let mut d: Vec<char> = Vec::new();
        d.push('.');
        assert(d@ =~= dot());
        Some(string_of(&d))
    } else {
        Some(join_slash_string(&stack))
    }
}

// ---------------------------------------------------------------------------
// Laws.

/// Every piece is a proper name: not empty, not `.`, free of `/`.
pub open spec fn clean(l: Seq<Seq<char>>) -> bool {
    forall|i: int| 0 <= i < l.len() ==> (#[trigger] l[i]).len() > 0 && l[i] != dot() && !l[i].contains('/')
}

/// The `..` pieces all come before the other pieces.
pub open spec fn dots_first(l: Seq<Seq<char>>) -> bool {
    forall|i: int, j: int| 0 <= i < j < l.len() && #[trigger] l[j] == dot_dot() ==> #[trigger] l[i] == dot_dot()
}

proof fn lemma_split_chunk(done: Seq<Seq<char>>, cur: Seq<char>, x: Seq<char>, rest: Seq<char>)
    requires
        !x.contains('/'),
    ensures
        split_acc(done, cur, x + rest) == split_acc(done, cur + x, rest),
    decreases x.len(),
{
    if x.len() == 0 {
        assert(x + rest =~= rest);
        assert(cur + x =~= cur);
    } else {
        assert((x + rest)[0] == x[0]);
        assert((x + rest).drop_first() =~= x.drop_first() + rest);
        assert(!x.drop_first().contains('/')) by {
            if x.drop_first().contains('/') {
                let k = choose|k: int| 0 <= k < x.drop_first().len() && x.drop_first()[k] == '/';
                assert(x[k + 1] == '/');
            }
        }
        assert(x[0] != '/');
        lemma_split_chunk(done, cur.push(x[0]), x.drop_first(), rest);
        assert(cur.push(x[0]) + x.drop_first() =~= cur + x);
    }
}

proof fn lemma_split_join(done: Seq<Seq<char>>, l: Seq<Seq<char>>, t: Seq<char>)
    requires
        l.len() >= 1,
        forall|i: int| 0 <= i < l.len() ==> !(#[trigger] l[i]).contains('/'),
    ensures
        split_acc(done, Seq::empty(), join_slash(l) + seq!['/'] + t) == split_acc(done + l, Seq::empty(), t),
        split_acc(done, Seq::empty(), join_slash(l)) == done + l,
    decreases l.len(),
{
    let e = Seq::<char>::empty();
    if l.len() == 1 {
        assert(join_slash(l) == l[0]);
        lemma_split_chunk(done, e, l[0], seq!['/'] + t);
        assert(join_slash(l) + seq!['/'] + t =~= l[0] + (seq!['/'] + t));
        assert(e + l[0] =~= l[0]);
        assert((seq!['/'] + t).drop_first() =~= t);
        assert(done.push(l[0]) =~= done + l);
        lemma_split_chunk(done, e, l[0], e);
        assert(l[0] + e =~= l[0]);
    } else {
        let init = l.drop_last();
        let last = l.last();
        assert(!last.contains('/'));
        lemma_split_join(done, init, last + seq!['/'] + t);
        lemma_split_join(done, init, last);
        assert(join_slash(l) + seq!['/'] + t =~= join_slash(init) + seq!['/'] + (last + seq!['/'] + t));
        assert(join_slash(l) =~= join_slash(init) + seq!['/'] + last);
        lemma_split_chunk(done + init, e, last, seq!['/'] + t);
        assert(last + seq!['/'] + t =~= last + (seq!['/'] + t));
        assert(e + last =~= last);
        assert((seq!['/'] + t).drop_first() =~= t);
        assert((done + init).push(last) =~= done + l);
        lemma_split_chunk(done + init, e, last, e);
        assert(last + e =~= last);
    }
}

proof fn lemma_keep_names_concat(a: Seq<Seq<char>>, b: Seq<Seq<char>>)
    ensures
        keep_names(a + b) == keep_names(a) + keep_names(b),
    decreases b.len(),
{
    if b.len() == 0 {
        assert(a + b =~= a);
        assert(keep_names(a) + keep_names(b) =~= keep_names(a));
    } else {
        assert((a + b).drop_last() =~= a + b.drop_last());
        lemma_keep_names_concat(a, b.drop_last());
        let c = b.last();
        assert((a + b).last() == c);
        let tail = if c.len() > 0 && c != dot() {
            seq![c]
        } else {
            Seq::empty()
        };
        assert(keep_names(a) + keep_names(b.drop_last()) + tail =~= keep_names(a) + (keep_names(b.drop_last()) + tail));
    }
}

proof fn lemma_keep_names_clean(l: Seq<Seq<char>>)
    requires
        clean(l),
    ensures
        keep_names(l) == l,
    decreases l.len(),
{
    if l.len() > 0 {
        lemma_keep_names_clean(l.drop_last());
        assert(l.last() == l[l.len() - 1]);
        assert(l.drop_last() + seq![l.last()] =~= l);
    }
}

proof fn lemma_split_acc_pieces(done: Seq<Seq<char>>, cur: Seq<char>, rest: Seq<char>)
    requires
        forall|i: int| 0 <= i < done.len() ==> !(#[trigger] done[i]).contains('/'),
        !cur.contains('/'),
    ensures
        forall|i: int|
            0 <= i < split_acc(done, cur, rest).len() ==> !(#[trigger] split_acc(done, cur, rest)[i]).contains('/'),
    decreases rest.len(),
{
    if rest.len() == 0 {
        assert forall|i: int| 0 <= i < done.push(cur).len() implies !(#[trigger] done.push(cur)[i]).contains('/') by {
            if i < done.len() {
                assert(done.push(cur)[i] == done[i]);
            }
        }
    } else if rest[0] == '/' {
        let d2 = done.push(cur);
        assert forall|i: int| 0 <= i < d2.len() implies !(#[trigger] d2[i]).contains('/') by {
            if i < done.len() {
                assert(d2[i] == done[i]);
            }
        }
        lemma_split_acc_pieces(d2, Seq::empty(), rest.drop_first());
        assert(split_acc(done, cur, rest) == split_acc(d2, Seq::empty(), rest.drop_first()));
    } else {
        let c2 = cur.push(rest[0]);
        assert(!c2.contains('/')) by {
            if c2.contains('/') {
                let k = choose|k: int| 0 <= k < c2.len() && c2[k] == '/';
                if k < cur.len() {
                    assert(cur[k] == '/');
                }
            }
        }
        lemma_split_acc_pieces(done, c2, rest.drop_first());
        assert(split_acc(done, cur, rest) == split_acc(done, c2, rest.drop_first()));
    }
}

proof fn lemma_keep_names_of_split_clean(s: Seq<char>)
    ensures
        clean(keep_names(split_slash(s))),
{
    lemma_split_acc_pieces(Seq::empty(), Seq::empty(), s);
    lemma_keep_names_shape(split_slash(s));
}

proof fn lemma_keep_names_shape(l: Seq<Seq<char>>)
    requires
        forall|i: int| 0 <= i < l.len() ==> !(#[trigger] l[i]).contains('/'),
    ensures
        clean(keep_names(l)),
    decreases l.len(),
{
    if l.len() > 0 {
        lemma_keep_names_shape(l.drop_last());
        let c = l.last();
        assert(c == l[l.len() - 1]);
        let k = keep_names(l);
        let k0 = keep_names(l.drop_last());
        assert forall|i: int| 0 <= i < k.len() implies (#[trigger] k[i]).len() > 0 && k[i] != dot() && !k[i].contains('/') by {
            if i < k0.len() {
                assert(k[i] == k0[i]);
            }
        }
    }
}

proof fn lemma_walk_shape(stack: Seq<Seq<char>>, comps: Seq<Seq<char>>)
    requires
        clean(stack),
        clean(comps),
        dots_first(stack),
    ensures
        clean(lexical_walk(stack, comps)),
        dots_first(lexical_walk(stack, comps)),
    decreases comps.len(),
{
    if comps.len() > 0 {
        let c = comps[0];
        let rest = comps.drop_first();
        assert(clean(rest)) by {
            assert forall|i: int| 0 <= i < rest.len() implies (#[trigger] rest[i]).len() > 0 && rest[i] != dot() && !rest[i].contains('/') by {
                assert(rest[i] == comps[i + 1]);
            }
        }
        assert(c == comps[0]);
        if c == dot_dot() && stack.len() > 0 && stack.last() != dot_dot() {
            let s2 = stack.drop_last();
            assert(clean(s2)) by {
                assert forall|i: int| 0 <= i < s2.len() implies (#[trigger] s2[i]).len() > 0 && s2[i] != dot() && !s2[i].contains('/') by {
                    assert(s2[i] == stack[i]);
                }
            }
            assert(dots_first(s2)) by {
                assert forall|i: int, j: int| 0 <= i < j < s2.len() && #[trigger] s2[j] == dot_dot() implies #[trigger] s2[i] == dot_dot() by {
                    assert(s2[i] == stack[i]);
                    assert(s2[j] == stack[j]);
                }
            }
            lemma_walk_shape(s2, rest);
        } else {
            let s2 = stack.push(c);
            assert(clean(s2)) by {
                assert forall|i: int| 0 <= i < s2.len() implies (#[trigger] s2[i]).len() > 0 && s2[i] != dot() && !s2[i].contains('/') by {
                    if i < stack.len() {
                        assert(s2[i] == stack[i]);
                    }
                }
            }
            assert(dots_first(s2)) by {
                assert forall|i: int, j: int| 0 <= i < j < s2.len() && #[trigger] s2[j] == dot_dot() implies #[trigger] s2[i] == dot_dot() by {
                    assert(s2[i] == stack[i]);
                    if j < stack.len() {
                        assert(s2[j] == stack[j]);
                    } else {
                        // A `..` is pushed only onto nothing or onto a `..`.
                        assert(stack[stack.len() - 1] == dot_dot());
                    }
                }
            }
            lemma_walk_shape(s2, rest);
        }
    }
}

proof fn lemma_walk_fixed(w: Seq<Seq<char>>, k: int)
    requires
        dots_first(w),
        0 <= k <= w.len(),
    ensures
        lexical_walk(w.take(k), w.skip(k)) == w,
    decreases w.len() - k,
{
    if k == w.len() {
        assert(w.take(k) =~= w);
    } else {
        assert(w.skip(k)[0] == w[k]);
        assert(w.skip(k).drop_first() =~= w.skip(k + 1));
        assert(w.take(k).push(w[k]) =~= w.take(k + 1));
        if w[k] == dot_dot() && k > 0 {
            assert(w.take(k).last() == w[k - 1]);
            assert(w[k - 1] == dot_dot());
        }
        lemma_walk_fixed(w, k + 1);
    }
}

/// The names that the normal form of `p` keeps.
pub open spec fn normal_names(p: Seq<char>) -> Seq<Seq<char>> {
    lexical_walk(Seq::empty(), keep_names(split_slash(p)))
}

proof fn lemma_names_of_joined(w: Seq<Seq<char>>, rooted: bool)
    requires
        clean(w),
    ensures
        keep_names(split_slash(if rooted { seq!['/'] + join_slash(w) } else { join_slash(w) })) == w,
{
    let e = Seq::<char>::empty();
    let es = Seq::<Seq<char>>::empty();
    lemma_keep_names_clean(w);
    if w.len() == 0 {
        if rooted {
            assert(seq!['/'] + join_slash(w) =~= seq!['/']);
            assert(seq!['/'].drop_first() =~= e);
            assert(seq!['/'][0] == '/');
            assert(split_acc(es, e, seq!['/']) == split_acc(es.push(e), e, e));
            assert(split_acc(es.push(e), e, e) == es.push(e).push(e));
            assert(split_slash(seq!['/']) =~= seq![e, e]);
            assert(seq![e, e] =~= seq![e] + seq![e]);
            lemma_keep_names_concat(seq![e], seq![e]);
            assert(keep_names(seq![e]) =~= Seq::<Seq<char>>::empty()) by {
                assert(seq![e].drop_last() =~= es);
                assert(seq![e].last() == e);
                assert(keep_names(es) == es);
            }
        } else {
            assert(split_slash(e) =~= seq![e]);
            assert(seq![e].drop_last() =~= es);
        }
    } else {
        assert forall|i: int| 0 <= i < w.len() implies !(#[trigger] w[i]).contains('/') by {}
        lemma_split_join(es, w, e);
        if rooted {
            let r = seq!['/'] + join_slash(w);
            assert(r[0] == '/');
            assert(r.drop_first() =~= join_slash(w));
            lemma_split_join(seq![e], w, e);
            assert(split_slash(r) == split_acc(seq![e], e, join_slash(w)));
            lemma_keep_names_concat(seq![e], w);
            assert(keep_names(seq![e]) =~= es) by {
                assert(seq![e].drop_last() =~= es);
                assert(seq![e].last() == e);
                assert(keep_names(es) == es);
            }
            assert(es + w =~= w);
        } else {
            assert(es + w =~= w);
        }
    }
}

/// The shape of a normal form: it keeps exactly the names of the lexical
/// walk, none empty and none `.`, with every `..` (those that climb past
/// the start, which are kept) before the other names; it is absolute
/// exactly when the path is.
pub proof fn law_normal_path_shape(p: Seq<char>)
    ensures
        keep_names(split_slash(normal_path(p))) == normal_names(p),
        clean(normal_names(p)),
        dots_first(normal_names(p)),
        (normal_path(p).len() > 0 && normal_path(p)[0] == '/') == (p.len() > 0 && p[0] == '/'),
{
    let w = normal_names(p);
    lemma_keep_names_of_split_clean(p);
    lemma_walk_shape(Seq::empty(), keep_names(split_slash(p)));
    let rooted = p.len() > 0 && p[0] == '/';
    lemma_names_of_joined(w, rooted);
    if rooted {
        assert(normal_path(p)[0] == '/');
    } else if w.len() > 0 {
        lemma_join_first(w);
    }
}

/// Normalizing is idempotent: a normalized path is its own normal form.
pub proof fn law_normal_path_idempotent(p: Seq<char>)
    ensures
        normal_path(normal_path(p)) == normal_path(p),
{
    let w = normal_names(p);
    lemma_keep_names_of_split_clean(p);
    lemma_walk_shape(Seq::empty(), keep_names(split_slash(p)));
    let rooted = p.len() > 0 && p[0] == '/';
    let q = normal_path(p);
    lemma_names_of_joined(w, rooted);
    assert(keep_names(split_slash(q)) == w);
    assert(w.take(0) =~= Seq::<Seq<char>>::empty());
    assert(w.skip(0) =~= w);
    lemma_walk_fixed(w, 0);
    if rooted {
        assert(q[0] == '/');
    } else if w.len() > 0 {
        assert(join_slash(w).len() > 0 && join_slash(w)[0] != '/') by {
            lemma_join_first(w);
        }
    }
}

proof fn lemma_join_first(w: Seq<Seq<char>>)
    requires
        clean(w),
        w.len() > 0,
    ensures
        join_slash(w).len() > 0,
        join_slash(w)[0] == w[0][0],
    decreases w.len(),
{
    if w.len() > 1 {
        let init = w.drop_last();
        assert(clean(init)) by {
            assert forall|i: int| 0 <= i < init.len() implies (#[trigger] init[i]).len() > 0 && init[i] != dot() && !init[i].contains('/') by {
                assert(init[i] == w[i]);
            }
        }
        lemma_join_first(init);
    }
    assert(w[0].len() > 0);
    assert(w[0][0] != '/') by {
        assert(!w[0].contains('/'));
        assert(w[0][0] == w[0][0]);
    }
}

proof fn lemma_resolve_clean(stack: Seq<Seq<char>>, comps: Seq<Seq<char>>)
    requires
        clean(stack),
        forall|i: int| 0 <= i < comps.len() ==> !(#[trigger] comps[i]).contains('/'),
    ensures
        resolve_rel(stack, comps) matches Some(st) ==> clean(st),
    decreases comps.len(),
{
    if comps.len() > 0 {
        let c = comps[0];
        let rest = comps.drop_first();
        assert forall|i: int| 0 <= i < rest.len() implies !(#[trigger] rest[i]).contains('/') by {
            assert(rest[i] == comps[i + 1]);
        }
        if c.len() == 0 || c == dot() {
            lemma_resolve_clean(stack, rest);
        } else if c == dot_dot() {
            if stack.len() > 0 {
                let s2 = stack.drop_last();
                assert(clean(s2)) by {
                    assert forall|i: int| 0 <= i < s2.len() implies (#[trigger] s2[i]).len() > 0 && s2[i] != dot() && !s2[i].contains('/') by {
                        assert(s2[i] == stack[i]);
                    }
                }
                lemma_resolve_clean(s2, rest);
            }
        } else {
            let s2 = stack.push(c);
            assert(clean(s2)) by {
                assert forall|i: int| 0 <= i < s2.len() implies (#[trigger] s2[i]).len() > 0 && s2[i] != dot() && !s2[i].contains('/') by {
                    if i < stack.len() {
                        assert(s2[i] == stack[i]);
                    }
                }
            }
            lemma_resolve_clean(s2, rest);
        }
    }
}

/// No piece is `..`.
pub open spec fn no_climb(l: Seq<Seq<char>>) -> bool {
    forall|i: int| 0 <= i < l.len() ==> #[trigger] l[i] != dot_dot()
}

proof fn lemma_resolve_no_climb(stack: Seq<Seq<char>>, comps: Seq<Seq<char>>)
    requires
        no_climb(stack),
    ensures
        resolve_rel(stack, comps) matches Some(st) ==> no_climb(st),
    decreases comps.len(),
{
    if comps.len() > 0 {
        let c = comps[0];
        let rest = comps.drop_first();
        if c.len() == 0 || c == dot() {
            lemma_resolve_no_climb(stack, rest);
        } else if c == dot_dot() {
            if stack.len() > 0 {
                let s2 = stack.drop_last();
                assert(no_climb(s2)) by {
                    assert forall|i: int| 0 <= i < s2.len() implies #[trigger] s2[i] != dot_dot() by {
                        assert(s2[i] == stack[i]);
                    }
                }
                lemma_resolve_no_climb(s2, rest);
            }
        } else {
            let s2 = stack.push(c);
            assert(no_climb(s2)) by {
                assert forall|i: int| 0 <= i < s2.len() implies #[trigger] s2[i] != dot_dot() by {
                    if i < stack.len() {
                        assert(s2[i] == stack[i]);
                    }
                }
            }
            lemma_resolve_no_climb(s2, rest);
        }
    }
}

/// For a base dir whose names hold no `..`, a resolved source dir is `.` or
/// the `/`-joined names that the walk kept, none of them empty, `.` or `..`;
/// it never starts with `/`, and resolving `.` against it gives it back.
pub proof fn law_rel_source_shape(base: Seq<char>, local_root: Seq<char>)
    requires
        no_climb(keep_names(split_slash(base))),
    ensures
        rel_source(base, local_root) matches Some(s) ==> {
            &&& s.len() > 0
            &&& s[0] != '/'
            &&& s == dot() || (clean(split_slash(s)) && no_climb(split_slash(s)))
            &&& rel_source(s, dot()) == Some(s)
        },
{
    if let Some(s) = rel_source(base, local_root) {
        let e = Seq::<char>::empty();
        let es = Seq::<Seq<char>>::empty();
        law_rel_source_normal(base, local_root);
        lemma_keep_names_of_split_clean(base);
        lemma_split_acc_pieces(es, e, local_root);
        lemma_resolve_clean(keep_names(split_slash(base)), split_slash(local_root));
        lemma_resolve_no_climb(keep_names(split_slash(base)), split_slash(local_root));
        let st = resolve_rel(keep_names(split_slash(base)), split_slash(local_root))->0;
        if st.len() > 0 {
            assert forall|i: int| 0 <= i < st.len() implies !(#[trigger] st[i]).contains('/') by {}
            lemma_split_join(es, st, e);
            assert(es + st =~= st);
            lemma_join_first(st);
        }
    }
}

/// A resolved source dir is already normal: resolving `.` against it gives
/// it back. (Project sources and dependency sources are compared in this
/// normal form.)
pub proof fn law_rel_source_normal(base: Seq<char>, local_root: Seq<char>)
    ensures
        rel_source(base, local_root) matches Some(r) ==> rel_source(r, dot()) == Some(r),
{
    if let Some(r) = rel_source(base, local_root) {
        let e = Seq::<char>::empty();
        let es = Seq::<Seq<char>>::empty();
        lemma_keep_names_of_split_clean(base);
        lemma_split_acc_pieces(es, e, local_root);
        lemma_resolve_clean(keep_names(split_slash(base)), split_slash(local_root));
        let st = resolve_rel(keep_names(split_slash(base)), split_slash(local_root))->0;
        assert(!dot().contains(':'));
        assert(dot()[0] == '.');
        assert(dot().drop_first() =~= e);
        assert(split_acc(es, e, dot()) == split_acc(es, e.push('.'), e));
        assert(e.push('.') =~= dot());
        assert(split_slash(dot()) =~= seq![dot()]);
        assert(seq![dot()][0] == dot());
        assert(seq![dot()].drop_first() =~= es);
        lemma_names_of_joined(st, false);
        assert(resolve_rel(st, seq![dot()]) == resolve_rel(st, es));
        assert(resolve_rel(es, seq![dot()]) == resolve_rel(es, es));
        if st.len() == 0 {
            assert(seq![dot()].drop_last() =~= es);
            assert(seq![dot()].last() == dot());
            assert(keep_names(es) == es);
            assert(keep_names(seq![dot()]) =~= es);
            assert(r == dot());
        } else {
            assert(r == join_slash(st));
            assert(keep_names(split_slash(r)) == st);
        }
    }
}

} // verus!
