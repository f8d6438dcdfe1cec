//! Where an entry lands under the target directory, decided on the path's
//! text alone: splitting, lexical normalization, containment, and the
//! directories that the file system checks and cleanups walk through.

use vstd::prelude::*;

use crate::package::PatchError;
use crate::text::{chars_of, push_char};

verus! {

/// The pieces of a path between its slashes, empty pieces included.
pub open spec fn split_parts(s: Seq<char>) -> Seq<Seq<char>>
    decreases s.len(),
{
    if s.len() == 0 {
        seq![Seq::empty()]
    } else {
        let r = split_parts(s.drop_last());
        if s.last() == '/' {
            r.push(Seq::empty())
        } else {
            r.update(r.len() - 1, r.last().push(s.last()))
        }
    }
}

pub open spec fn is_absolute(s: Seq<char>) -> bool {
    s.len() > 0 && s[0] == '/'
}

/// One step of lexical normalization. Empty pieces and `.` are skipped. `..`
/// cancels the last part where there is one that is not itself `..`;
/// otherwise it does nothing at the root of an absolute path and is kept in
/// a relative one. Anything else is appended.
pub open spec fn step(absolute: bool, acc: Seq<Seq<char>>, part: Seq<char>) -> Seq<Seq<char>> {
    if part.len() == 0 || part == seq!['.'] {
        acc
    } else if part == seq!['.', '.'] {
        if acc.len() > 0 && acc.last() != seq!['.', '.'] {
            acc.drop_last()
        } else if absolute {
            acc
        } else {
            acc.push(part)
        }
    } else {
        acc.push(part)
    }
}

/// `acc` followed by the pieces `ps`, normalized left to right.
pub open spec fn normalize_from(absolute: bool, acc: Seq<Seq<char>>, ps: Seq<Seq<char>>) -> Seq<
    Seq<char>,
>
    decreases ps.len(),
{
    if ps.len() == 0 {
        acc
    } else {
        step(absolute, normalize_from(absolute, acc, ps.drop_last()), ps.last())
    }
}

/// The normalized parts of a path on its own.
pub open spec fn normal_parts(s: Seq<char>) -> Seq<Seq<char>> {
    normalize_from(is_absolute(s), Seq::empty(), split_parts(s))
}

/// The normalized parts of `rel` joined onto `target` (an absolute `rel`
/// replaces the target, as joining paths does).
pub open spec fn joined_parts(target: Seq<char>, rel: Seq<char>) -> Seq<Seq<char>> {
    if is_absolute(rel) {
        normal_parts(rel)
    } else {
        normalize_from(is_absolute(target), normal_parts(target), split_parts(rel))
    }
}

pub open spec fn joined_absolute(target: Seq<char>, rel: Seq<char>) -> bool {
    is_absolute(rel) || is_absolute(target)
}

/// `rel`, joined onto `target` and normalized, stays inside `target`: it
/// starts with the target's parts and does not climb above them.
pub open spec fn stays_inside(target: Seq<char>, rel: Seq<char>) -> bool {
    let t = normal_parts(target);
    let j = joined_parts(target, rel);
    &&& joined_absolute(target, rel) == is_absolute(target)
    &&& t.len() <= j.len()
    &&& j.take(t.len() as int) == t
    &&& forall|i: int| t.len() <= i < j.len() ==> j[i] != seq!['.', '.']
}

/// The text of a path made of `parts`.
pub open spec fn render(absolute: bool, parts: Seq<Seq<char>>) -> Seq<char> {
    if absolute {
        seq!['/'] + join_parts(parts)
    } else {
        join_parts(parts)
    }
}

pub open spec fn join_parts(parts: Seq<Seq<char>>) -> Seq<char>
    decreases parts.len(),
{
    if parts.len() == 0 {
        Seq::empty()
    } else if parts.len() == 1 {
        parts[0]
    } else {
        join_parts(parts.drop_last()) + seq!['/'] + parts.last()
    }
}

/// A normalized path: whether it starts at the root, and its parts.
#[derive(Clone, Debug)]
pub struct ResolvedPath {
    pub absolute: bool,
    pub parts: Vec<Vec<char>>,
    /// How many of the leading parts are the target directory's own.
    pub target_depth: usize,
}

pub open spec fn part_views(ps: Seq<Vec<char>>) -> Seq<Seq<char>> {
    ps.map_values(|p: Vec<char>| p@)
}

impl ResolvedPath {
    pub open spec fn part_seq(&self) -> Seq<Seq<char>> {
        part_views(self.parts@)
    }
}

fn split_path(s: &str) -> (r: Vec<Vec<char>>)
    ensures
        part_views(r@) == split_parts(s@),
{
    let cs = chars_of(s);
    let mut parts: Vec<Vec<char>> = Vec::new();
    let mut cur: Vec<char> = Vec::new();
    let mut i: usize = 0;
    assert(part_views(parts@).push(cur@) =~= split_parts(cs@.take(0)));
    while i < cs.len()
        invariant
            i <= cs@.len(),
            cs@ == s@,
            part_views(parts@).push(cur@) == split_parts(cs@.take(i as int)),
        decreases cs@.len() - i,
    {
        let c = cs[i];
        let ghost prev = part_views(parts@).push(cur@);
        assert(cs@.take(i + 1).drop_last() =~= cs@.take(i as int));
        assert(cs@.take(i + 1).last() == c);
        if c == '/' {
            let done = cur;
            parts.push(done);
            cur = Vec::new();
            assert(part_views(parts@).push(cur@) =~= prev.push(Seq::empty()));
        } else {
            cur.push(c);
            assert(part_views(parts@).push(cur@) =~= prev.update(prev.len() - 1, prev.last().push(c)));
        }
        i = i + 1;
    }
    assert(cs@.take(cs@.len() as int) =~= cs@);
    parts.push(cur);
    assert(part_views(parts@) =~= split_parts(s@));
    parts
}

fn is_dot(p: &Vec<char>) -> (r: bool)
    ensures
        r == (p@ == seq!['.']),
{
    if p.len() == 1 && p[0] == '.' {
        assert(p@ =~= seq!['.']);
        true
    } else {
        false
    }
}

fn is_dot_dot(p: &Vec<char>) -> (r: bool)
    ensures
        r == (p@ == seq!['.', '.']),
{
    if p.len() == 2 && p[0] == '.' && p[1] == '.' {
        assert(p@ =~= seq!['.', '.']);
        true
    } else {
        false
    }
}

fn normalize_onto(acc: &mut Vec<Vec<char>>, ps: Vec<Vec<char>>, absolute: bool)
    ensures
        part_views(final(acc)@) == normalize_from(absolute, part_views(old(acc)@), part_views(ps@)),
{
    let ghost start = part_views(acc@);
    let ghost all = part_views(ps@);
    for p in it: ps.into_iter()
        invariant
            all == part_views(it.seq()),
            part_views(acc@) == normalize_from(absolute, start, all.take(it.index() as int)),
    {
        let ghost k = it.index() as int;
        let ghost before = part_views(acc@);
        assert(all.take(k + 1).drop_last() =~= all.take(k));
        assert(all.take(k + 1).last() == p@);
        if p.len() == 0 || is_dot(&p) {
        } else if is_dot_dot(&p) {
            let n = acc.len();
            if n > 0 && !is_dot_dot(&acc[n - 1]) {
                acc.pop();
                assert(part_views(acc@) =~= before.drop_last());
            } else if !absolute {
                acc.push(p);
                assert(part_views(acc@) =~= before.push(seq!['.', '.']));
            }
        } else {
            acc.push(p);
            assert(part_views(acc@) =~= before.push(p@));
        }
    }
    assert(all.take(all.len() as int) =~= all);
}

fn starts_with_slash(s: &str) -> (r: bool)
    ensures
        r == is_absolute(s@),
{
    let cs = chars_of(s);
    cs.len() > 0 && cs[0] == '/'
}

fn parts_prefix(a: &Vec<Vec<char>>, b: &Vec<Vec<char>>) -> (r: bool)
    ensures
        r == (part_views(a@).len() <= part_views(b@).len() && part_views(b@).take(
            part_views(a@).len() as int,
        ) == part_views(a@)),
{
    if a.len() > b.len() {
        return false;
    }
    let mut i: usize = 0;
    while i < a.len()
        invariant
            a@.len() <= b@.len(),
            i <= a@.len(),
            forall|j: int| 0 <= j < i ==> a@[j]@ == b@[j]@,
        decreases a@.len() - i,
    {
        if !chars_equal(&a[i], &b[i]) {
            assert(part_views(b@).take(part_views(a@).len() as int)[i as int] != part_views(a@)[i as int]);
            return false;
        }
        i = i + 1;
    }
    assert(part_views(b@).take(part_views(a@).len() as int) =~= part_views(a@));
    true
}

fn chars_equal(a: &Vec<char>, b: &Vec<char>) -> (r: bool)
    ensures
        r == (a@ == b@),
{
    if a.len() != b.len() {
        return false;
    }
    let mut i: usize = 0;
    while i < a.len()
        invariant
            a@.len() == b@.len(),
            i <= a@.len(),
            forall|j: int| 0 <= j < i ==> a@[j] == b@[j],
        decreases a@.len() - i,
    {
        if a[i] != b[i] {
            return false;
        }
        i = i + 1;
    }
    assert(a@ =~= b@);
    true
}

fn no_parent_from(parts: &Vec<Vec<char>>, n: usize) -> (r: bool)
    ensures
        r == (forall|i: int| n <= i < parts@.len() ==> part_views(parts@)[i] != seq!['.', '.']),
{
    let mut i: usize = n;
    while i < parts.len()
        invariant
            n <= i,
            forall|j: int| n <= j < i && j < parts@.len() ==> part_views(parts@)[j] != seq!['.', '.'],
        decreases parts@.len() - i,
    {
        assert(part_views(parts@)[i as int] == parts@[i as int]@);
        if is_dot_dot(&parts[i]) {
            return false;
        }
        i = i + 1;
    }
    true
}

/// Where the entry path `rel` lands under `target`: `rel` is joined onto
/// `target` and normalized without touching the file system, and refused with
/// `PathEscape` unless the result lies within the normalized target.
pub fn resolve_entry_path(target: &str, rel: &str) -> (r: Result<ResolvedPath, PatchError>)
    ensures
        r is Ok <==> stays_inside(target@, rel@),
        r matches Ok(p) ==> p.absolute == joined_absolute(target@, rel@) && p.part_seq()
            == joined_parts(target@, rel@) && p.target_depth == normal_parts(target@).len(),
        r matches Err(e) ==> (e matches PatchError::PathEscape(p) && p@ == rel@),
{
    let target_abs = starts_with_slash(target);
    let rel_abs = starts_with_slash(rel);
    let mut base: Vec<Vec<char>> = Vec::new();
    normalize_onto(&mut base, split_path(target), target_abs);
    assert(part_views(Seq::<Vec<char>>::empty()) =~= Seq::<Seq<char>>::empty());
    let mut joined: Vec<Vec<char>> = Vec::new();
    if !rel_abs {
        normalize_onto(&mut joined, split_path(target), target_abs);
    }
    let absolute = rel_abs || target_abs;
    normalize_onto(&mut joined, split_path(rel), absolute);
    if absolute != target_abs || !parts_prefix(&base, &joined) || !no_parent_from(
        &joined,
        base.len(),
    ) {
        let mut msg = String::new();
        let cs = chars_of(rel);
        let mut i: usize = 0;
        while i < cs.len()
            invariant
                cs@ == rel@,
                i <= cs@.len(),
                msg@ == cs@.take(i as int),
            decreases cs@.len() - i,
        {
            push_char(&mut msg, cs[i]);
            i = i + 1;
            assert(msg@ =~= cs@.take(i as int));
        }
        assert(cs@.take(cs@.len() as int) =~= cs@);
        return Err(PatchError::PathEscape(msg));
    }
    Ok(ResolvedPath { absolute, parts: joined, target_depth: base.len() })
}

fn append_chars(out: &mut String, cs: &Vec<char>)
    ensures
        final(out)@ == old(out)@ + cs@,
{
    let mut i: usize = 0;
    while i < cs.len()
        invariant
            i <= cs@.len(),
            out@ == old(out)@ + cs@.take(i as int),
        decreases cs@.len() - i,
    {
        push_char(out, cs[i]);
        i = i + 1;
        assert(out@ =~= old(out)@ + cs@.take(i as int));
    }
    assert(cs@.take(cs@.len() as int) =~= cs@);
}

fn render_prefix(absolute: bool, parts: &Vec<Vec<char>>, n: usize) -> (r: String)
    requires
        n <= parts@.len(),
    ensures
        r@ == render(absolute, part_views(parts@).take(n as int)),
{
    let ghost ps = part_views(parts@);
    let mut out = String::new();
    if absolute {
        push_char(&mut out, '/');
    }
    let ghost lead: Seq<char> = if absolute { seq!['/'] } else { Seq::empty() };
    assert(out@ =~= lead);
    let mut i: usize = 0;
    assert(ps.take(0) =~= Seq::<Seq<char>>::empty());
    while i < n
        invariant
            i <= n <= parts@.len(),
            ps == part_views(parts@),
            out@ == lead + join_parts(ps.take(i as int)),
            lead == (if absolute { seq!['/'] } else { Seq::<char>::empty() }),
        decreases n - i,
    {
        assert(ps.take(i + 1).drop_last() =~= ps.take(i as int));
        assert(ps.take(i + 1).last() == parts@[i as int]@);
        if i > 0 {
            push_char(&mut out, '/');
            append_chars(&mut out, &parts[i]);
            assert(out@ =~= lead + join_parts(ps.take(i + 1)));
        } else {
            append_chars(&mut out, &parts[i]);
            assert(ps.take(1)[0] == parts@[0]@);
            assert(out@ =~= lead + join_parts(ps.take(i + 1)));
        }
        i = i + 1;
    }
    proof {
        if !absolute {
            assert(out@ =~= join_parts(ps.take(n as int)));
        }
    }
    out
}

impl ResolvedPath {
    /// The text of the path.
    pub fn to_path_string(&self) -> (r: String)
        ensures
            r@ == render(self.absolute, self.part_seq()),
    {
        let r = render_prefix(self.absolute, &self.parts, self.parts.len());
        assert(self.part_seq().take(self.parts@.len() as int) =~= self.part_seq());
        r
    }

    /// The path of each component, from the first part down to the path
    /// itself: every one of them must not be a symbolic link.
    pub fn component_paths(&self) -> (r: Vec<String>)
        ensures
            r@.len() == self.parts@.len(),
            forall|i: int|
                0 <= i < r@.len() ==> #[trigger] r@[i]@ == render(
                    self.absolute,
                    self.part_seq().take(i + 1),
                ),
    {
        let mut out: Vec<String> = Vec::new();
        let mut i: usize = 0;
        while i < self.parts.len()
            invariant
                i <= self.parts@.len(),
                out@.len() == i,
                forall|j: int|
                    0 <= j < i ==> #[trigger] out@[j]@ == render(
                        self.absolute,
                        self.part_seq().take(j + 1),
                    ),
            decreases self.parts@.len() - i,
        {
            out.push(render_prefix(self.absolute, &self.parts, i + 1));
            i = i + 1;
        }
        out
    }

    /// The directories to try to remove, innermost first, once the file at
    /// this path is removed: its ancestors strictly inside the target
    /// directory. A caller removes them while they are empty and stops at the
    /// first that is not.
    pub fn cleanup_candidates(&self) -> (r: Vec<String>)
        ensures
            self.target_depth + 1 <= self.parts@.len() ==> r@.len() == self.parts@.len() - 1
                - self.target_depth,
            self.target_depth + 1 > self.parts@.len() ==> r@.len() == 0,
            forall|i: int|
                0 <= i < r@.len() ==> #[trigger] r@[i]@ == render(
                    self.absolute,
                    self.part_seq().take(self.parts@.len() - 1 - i),
                ),
    {
        let mut out: Vec<String> = Vec::new();
        if self.parts.len() <= self.target_depth {
            return out;
        }
        let mut n: usize = self.parts.len() - 1;
        while n > self.target_depth
            invariant
                self.target_depth <= n <= self.parts@.len() - 1,
                out@.len() == self.parts@.len() - 1 - n,
                forall|i: int|
                    0 <= i < out@.len() ==> #[trigger] out@[i]@ == render(
                        self.absolute,
                        self.part_seq().take(self.parts@.len() - 1 - i),
                    ),
            decreases n,
        {
            out.push(render_prefix(self.absolute, &self.parts, n));
            n = n - 1;
        }
        out
    }
}

proof fn lemma_split_plain_suffix(s: Seq<char>, w: Seq<char>)
    requires
        forall|i: int| 0 <= i < w.len() ==> w[i] != '/',
    ensures
        split_parts(s + w) == split_parts(s).update(
            split_parts(s).len() - 1,
            split_parts(s).last() + w,
        ),
        split_parts(s + w).len() == split_parts(s).len(),
    decreases w.len(),
{
    lemma_split_nonempty(s);
    if w.len() == 0 {
        assert(s + w =~= s);
        assert(split_parts(s).last() + w =~= split_parts(s).last());
        assert(split_parts(s).update(split_parts(s).len() - 1, split_parts(s).last())
            =~= split_parts(s));
    } else {
        let w0 = w.drop_last();
        lemma_split_plain_suffix(s, w0);
        assert((s + w).drop_last() =~= s + w0);
        assert((s + w).last() == w.last());
        lemma_split_nonempty(s + w0);
        let r = split_parts(s + w0);
        assert(r.last() == split_parts(s).last() + w0);
        assert(w.last() == w[w.len() - 1]);
        assert((s + w).last() != '/');
        assert(split_parts(s + w) == r.update(r.len() - 1, r.last().push(w.last())));
        assert((split_parts(s).last() + w0).push(w.last()) =~= split_parts(s).last() + w);
        assert(split_parts(s + w) =~= split_parts(s).update(
            split_parts(s).len() - 1,
            split_parts(s).last() + w,
        ));
    }
}

proof fn lemma_split_nonempty(s: Seq<char>)
    ensures
        split_parts(s).len() >= 1,
    decreases s.len(),
{
    if s.len() > 0 {
        lemma_split_nonempty(s.drop_last());
    }
}

proof fn lemma_absolute_has_no_parent(ps: Seq<Seq<char>>)
    ensures
        forall|i: int|
            0 <= i < normalize_from(true, Seq::empty(), ps).len() ==> normalize_from(
                true,
                Seq::empty(),
                ps,
            )[i] != seq!['.', '.'],
    decreases ps.len(),
{
    if ps.len() > 0 {
        lemma_absolute_has_no_parent(ps.drop_last());
        let acc = normalize_from(true, Seq::empty(), ps.drop_last());
        let r = normalize_from(true, Seq::empty(), ps);
        assert(r == step(true, acc, ps.last()));
        assert forall|i: int| 0 <= i < r.len() implies r[i] != seq!['.', '.'] by {
            if i < acc.len() {
                if r.len() == acc.len() - 1 {
                    assert(r[i] == acc.drop_last()[i]);
                }
            }
        }
    }
}

/// An entry path that climbs out of the target with `..` is refused: for
/// `../name`, where `name` is one plain component, resolution escapes every
/// target directory but the root (which nothing climbs above) and one that
/// is itself called `name` (where `../name` is the target again). A relative
/// target that normalizes to nothing, such as `.`, is escaped too.
pub proof fn lemma_parent_traversal_escapes(target: Seq<char>, name: Seq<char>)
    requires
        !(is_absolute(target) && normal_parts(target).len() == 0),
        name.len() > 0,
        forall|i: int| 0 <= i < name.len() ==> name[i] != '/',
        name != seq!['.'],
        name != seq!['.', '.'],
        normal_parts(target).len() >= 1 ==> name != normal_parts(target).last(),
    ensures
        !stays_inside(target, seq!['.', '.', '/'] + name),
{
    let rel = seq!['.', '.', '/'] + name;
    let t = normal_parts(target);
    let abs = is_absolute(target);
    assert(!is_absolute(rel)) by {
        assert(rel[0] == '.');
    }
    let head = seq!['.', '.', '/'];
    assert(head.drop_last() =~= seq!['.', '.']);
    assert(seq!['.', '.'].drop_last() =~= seq!['.']);
    assert(seq!['.'].drop_last() =~= Seq::<char>::empty());
    assert(split_parts(Seq::<char>::empty()) == seq![Seq::<char>::empty()]);
    assert(split_parts(seq!['.']) =~= seq![seq!['.']]) by {
        assert(seq![Seq::<char>::empty()].last().push('.') =~= seq!['.']);
    }
    assert(split_parts(seq!['.', '.']) =~= seq![seq!['.', '.']]) by {
        assert(seq!['.'].push('.') =~= seq!['.', '.']);
    }
    assert(split_parts(head) =~= seq![seq!['.', '.'], Seq::<char>::empty()]);
    lemma_split_plain_suffix(head, name);
    let ps = split_parts(rel);
    assert(Seq::<char>::empty() + name =~= name);
    assert(ps =~= seq![seq!['.', '.'], name]);
    assert(ps.drop_last() =~= seq![seq!['.', '.']]);
    assert(seq![seq!['.', '.']].drop_last() =~= Seq::<Seq<char>>::empty());
    assert(seq!['.', '.'] != seq!['.']) by {
        assert(seq!['.', '.'].len() != seq!['.'].len());
    }
    let j = joined_parts(target, rel);
    let s1 = step(abs, t, seq!['.', '.']);
    assert(normalize_from(abs, t, ps.drop_last().drop_last()) == t);
    assert(normalize_from(abs, t, ps.drop_last()) == s1);
    assert(j == step(abs, s1, name));
    assert(step(abs, s1, name) == s1.push(name));
    if abs {
        lemma_absolute_has_no_parent(split_parts(target));
        assert(t.last() != seq!['.', '.']);
    }
    if t.len() > 0 && t.last() != seq!['.', '.'] {
        assert(s1 == t.drop_last());
        if stays_inside(target, rel) {
            assert(j.len() == t.len());
            assert(j.take(t.len() as int) =~= j);
            assert(j.last() == name);
        }
    } else {
        assert(!abs);
        assert(s1 == t.push(seq!['.', '.']));
        assert(j[t.len() as int] == seq!['.', '.']);
    }
}

} // verus!
