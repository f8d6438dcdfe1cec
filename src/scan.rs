//! The paths of two tree scans, merged into one sorted list without
//! repetitions, so that equal trees give equal packages.

use vstd::prelude::*;

use crate::text::chars_of;

verus! {

/// `a` comes before `b`: lexicographic order of the characters, a proper
/// prefix first.
pub open spec fn path_less(a: Seq<char>, b: Seq<char>) -> bool
    decreases a.len(),
{
    if b.len() == 0 {
        false
    } else if a.len() == 0 {
        true
    } else if a[0] != b[0] {
        (a[0] as u32) < (b[0] as u32)
    } else {
        path_less(a.drop_first(), b.drop_first())
    }
}

pub open spec fn strictly_sorted(s: Seq<Seq<char>>) -> bool {
    forall|i: int, j: int| 0 <= i < j < s.len() ==> path_less(#[trigger] s[i], #[trigger] s[j])
}

pub open spec fn text_views(v: Seq<String>) -> Seq<Seq<char>> {
    v.map_values(|s: String| s@)
}

pub open spec fn char_views(v: Seq<Vec<char>>) -> Seq<Seq<char>> {
    v.map_values(|s: Vec<char>| s@)
}

pub(crate) proof fn lemma_less_irreflexive(a: Seq<char>)
    ensures
        !path_less(a, a),
    decreases a.len(),
{
    if a.len() > 0 {
        lemma_less_irreflexive(a.drop_first());
    }
}

proof fn lemma_less_total(a: Seq<char>, b: Seq<char>)
    ensures
        a == b || path_less(a, b) || path_less(b, a),
    decreases a.len(),
{
    if a.len() > 0 && b.len() > 0 && a[0] == b[0] {
        lemma_less_total(a.drop_first(), b.drop_first());
        if a.drop_first() == b.drop_first() {
            assert(a =~= seq![a[0]] + a.drop_first());
            assert(b =~= seq![b[0]] + b.drop_first());
        }
    } else if a.len() == 0 && b.len() == 0 {
        assert(a =~= b);
    } else if a.len() > 0 && b.len() > 0 {
        let x = a[0] as u32;
        let y = b[0] as u32;
        assert(x != y) by {
            vstd::utf8::char_u32_cast(a[0], x);
            vstd::utf8::char_u32_cast(b[0], y);
        }
    }
}

pub(crate) proof fn lemma_less_transitive(a: Seq<char>, b: Seq<char>, c: Seq<char>)
    requires
        path_less(a, b),
        path_less(b, c),
    ensures
        path_less(a, c),
    decreases a.len(),
{
    if a.len() > 0 && b.len() > 0 && c.len() > 0 && a[0] == b[0] && b[0] == c[0] {
        lemma_less_transitive(a.drop_first(), b.drop_first(), c.drop_first());
    }
}

pub(crate) fn chars_less(a: &Vec<char>, b: &Vec<char>) -> (r: bool)
    ensures
        r == path_less(a@, b@),
{
    let mut i: usize = 0;
    assert(a@.skip(0) =~= a@);
    assert(b@.skip(0) =~= b@);
    while i < a.len() && i < b.len()
        invariant
            i <= a@.len(),
            i <= b@.len(),
            path_less(a@, b@) == path_less(a@.skip(i as int), b@.skip(i as int)),
        decreases a@.len() - i,
    {
        if a[i] != b[i] {
            assert(a@.skip(i as int)[0] == a@[i as int]);
            assert(b@.skip(i as int)[0] == b@[i as int]);
            return (a[i] as u32) < (b[i] as u32);
        }
        assert(a@.skip(i as int).drop_first() =~= a@.skip(i + 1));
        assert(b@.skip(i as int).drop_first() =~= b@.skip(i + 1));
        i = i + 1;
    }
    assert(a@.skip(i as int).len() == a@.len() - i);
    assert(b@.skip(i as int).len() == b@.len() - i);
    i == a.len() && i < b.len()
}

fn chars_same(a: &Vec<char>, b: &Vec<char>) -> (r: bool)
    ensures
        r == (a@ == b@),
{
    if a.len() != b.len() {
        return false;
    }
    let mut i: usize = 0;
    while i < a.len()
        invariant
            a@.len() == b@.len(),
            i <= a@.len(),
            forall|j: int| 0 <= j < i ==> a@[j] == b@[j],
        decreases a@.len() - i,
    {
        if a[i] != b[i] {
            return false;
        }
        i = i + 1;
    }
    assert(a@ =~= b@);
    true
}

/// Adds `s` to the sorted list unless it is already there.
fn insert_path(out: &mut Vec<String>, keys: &mut Vec<Vec<char>>, s: String)
    requires
        text_views(old(out)@) == char_views(old(keys)@),
        strictly_sorted(text_views(old(out)@)),
    ensures
        text_views(final(out)@) == char_views(final(keys)@),
        strictly_sorted(text_views(final(out)@)),
        forall|x: Seq<char>|
            text_views(final(out)@).contains(x) <==> (text_views(old(out)@).contains(x) || x
                == s@),
{
    let ghost v0 = text_views(out@);
    let key = chars_of(s.as_str());
    let mut j: usize = 0;
    while j < keys.len() && chars_less(&keys[j], &key)
        invariant
            j <= keys@.len(),
            char_views(keys@) == v0,
            text_views(out@) == v0,
            key@ == s@,
            forall|p: int| 0 <= p < j ==> path_less(#[trigger] v0[p], s@),
        decreases keys@.len() - j,
    {
        assert(char_views(keys@)[j as int] == keys@[j as int]@);
        j = j + 1;
    }
    if j < keys.len() && chars_same(&keys[j], &key) {
        assert(v0[j as int] == s@);
        assert forall|x: Seq<char>| v0.contains(x) <==> (v0.contains(x) || x == s@) by {
            if x == s@ {
                assert(v0[j as int] == x);
            }
        }
        return;
    }
    proof {
        if j < v0.len() {
            assert(v0[j as int] == keys@[j as int]@);
            assert(!path_less(v0[j as int], s@));
            lemma_less_total(v0[j as int], s@);
            assert(path_less(s@, v0[j as int]));
        }
    }
    out.insert(j, s);
    keys.insert(j, key);
    let ghost v1 = text_views(out@);
    assert(v1 =~= v0.insert(j as int, key@));
    assert(char_views(keys@) =~= v0.insert(j as int, key@));
    assert forall|p: int, q: int| 0 <= p < q < v1.len() implies path_less(
        #[trigger] v1[p],
        #[trigger] v1[q],
    ) by {
        if q < j {
            assert(v1[p] == v0[p] && v1[q] == v0[q]);
        } else if q == j {
            assert(v1[p] == v0[p]);
        } else if p == j {
            assert(v1[q] == v0[q - 1]);
            if q - 1 > j {
                lemma_less_transitive(key@, v0[j as int], v0[q - 1]);
            }
        } else if p < j {
            assert(v1[p] == v0[p] && v1[q] == v0[q - 1]);
        } else {
            assert(v1[p] == v0[p - 1] && v1[q] == v0[q - 1]);
        }
    }
    assert forall|x: Seq<char>| v1.contains(x) <==> (v0.contains(x) || x == key@) by {
        if v0.contains(x) {
            let p = choose|p: int| 0 <= p < v0.len() && #[trigger] v0[p] == x;
            if p < j {
                assert(v1[p] == x);
            } else {
                assert(v1[p + 1] == x);
            }
        }
        if x == key@ {
            assert(v1[j as int] == x);
        }
        if v1.contains(x) {
            let p = choose|p: int| 0 <= p < v1.len() && #[trigger] v1[p] == x;
            if p < j {
                assert(v0[p] == x);
            } else if p > j {
                assert(v0[p - 1] == x);
            }
        }
    }
}

/// The paths of both lists, each once, in increasing order.
pub fn sorted_union(a: Vec<String>, b: Vec<String>) -> (r: Vec<String>)
    ensures
        strictly_sorted(text_views(r@)),
        forall|x: Seq<char>|
            text_views(r@).contains(x) <==> (text_views(a@).contains(x) || text_views(
                b@,
            ).contains(x)),
{
    let mut out: Vec<String> = Vec::new();
    let mut keys: Vec<Vec<char>> = Vec::new();
    let ghost va = text_views(a@);
    let ghost vb = text_views(b@);
    assert(text_views(out@) =~= char_views(keys@));
    for s in it: a.into_iter()
        invariant
            va == text_views(it.seq()),
            text_views(out@) == char_views(keys@),
            strictly_sorted(text_views(out@)),
            forall|x: Seq<char>|
                #[trigger] text_views(out@).contains(x) <==> va.take(it.index() as int).contains(x),
    {
        let ghost k = it.index() as int;
        assert(va[k] == s@);
        let ghost before = text_views(out@);
        insert_path(&mut out, &mut keys, s);
        proof {
            assert(va.take(k + 1) =~= va.take(k).push(va[k]));
            assert forall|x: Seq<char>|
                text_views(out@).contains(x) <==> va.take(k + 1).contains(x) by {
                assert(text_views(out@).contains(x) <==> (before.contains(x) || x == va[k]));
                assert(before.contains(x) <==> va.take(k).contains(x));
                if x == va[k] {
                    assert(va.take(k + 1)[k] == x);
                }
                if va.take(k + 1).contains(x) {
                    let p = choose|p: int| 0 <= p < k + 1 && #[trigger] va.take(k + 1)[p] == x;
                    if p < k {
                        assert(va.take(k)[p] == x);
                    }
                }
                if va.take(k).contains(x) {
                    let p = choose|p: int| 0 <= p < k && #[trigger] va.take(k)[p] == x;
                    assert(va.take(k + 1)[p] == x);
                }
            }
        }
    }
    assert(va.take(va.len() as int) =~= va);
    assert forall|x: Seq<char>|
        #[trigger] text_views(out@).contains(x) <==> (va.contains(x) || vb.take(0).contains(x)) by {
        assert(vb.take(0).len() == 0);
    }
    for s in it: b.into_iter()
        invariant
            vb == text_views(it.seq()),
            text_views(out@) == char_views(keys@),
            strictly_sorted(text_views(out@)),
            forall|x: Seq<char>|
                #[trigger] text_views(out@).contains(x) <==> (va.contains(x) || vb.take(
                    it.index() as int,
                ).contains(x)),
    {
        let ghost k = it.index() as int;
        assert(vb[k] == s@);
        let ghost before = text_views(out@);
        insert_path(&mut out, &mut keys, s);
        proof {
            assert forall|x: Seq<char>|
                text_views(out@).contains(x) <==> (va.contains(x) || vb.take(k + 1).contains(x)) by {
                assert(text_views(out@).contains(x) <==> (before.contains(x) || x == vb[k]));
                assert(before.contains(x) <==> (va.contains(x) || vb.take(k).contains(x)));
                if x == vb[k] {
                    assert(vb.take(k + 1)[k] == x);
                }
                if vb.take(k + 1).contains(x) {
                    let p = choose|p: int| 0 <= p < k + 1 && #[trigger] vb.take(k + 1)[p] == x;
                    if p < k {
                        assert(vb.take(k)[p] == x);
                    }
                }
                if vb.take(k).contains(x) {
                    let p = choose|p: int| 0 <= p < k && #[trigger] vb.take(k)[p] == x;
                    assert(vb.take(k + 1)[p] == x);
                }
            }
        }
    }
    assert(vb.take(vb.len() as int) =~= vb);
    out
}

} // verus!
