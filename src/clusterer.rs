//! Groups realms that share one auction house.
//!
//! Each realm's connected-realm list is a candidate group. The candidates are
//! stably sorted by their first slug (byte order, as `String` orders) and
//! adjacent duplicates are removed. Two groups count as duplicates only when
//! they hold the same slugs in the same order.
use vstd::prelude::*;
use vstd::utf8::encode_utf8;
use crate::model::{BattleNetApiClient, RealmInfo};

verus! {

/// A group of slugs as a sequence of character sequences.
pub open spec fn group_view(g: Vec<String>) -> Seq<Seq<char>> {
    g@.map_values(|s: String| s@)
}

pub open spec fn groups_view(v: Seq<Vec<String>>) -> Seq<Seq<Seq<char>>> {
    v.map_values(|g: Vec<String>| group_view(g))
}

/// The candidate groups, one per realm, in input order.
pub open spec fn candidates(realms: Seq<RealmInfo>) -> Seq<Seq<Seq<char>>> {
    realms.map_values(|r: RealmInfo| group_view(r.connected_realms))
}

/// Lexicographic order on bytes from position `i` on.
pub open spec fn lex_le_from(a: Seq<u8>, b: Seq<u8>, i: int) -> bool
    decreases a.len() - i,
{
    if i < 0 || i >= a.len() {
        true
    } else if i >= b.len() {
        false
    } else if a[i] != b[i] {
        a[i] < b[i]
    } else {
        lex_le_from(a, b, i + 1)
    }
}

/// Lexicographic order on bytes: the order of `String`.
pub open spec fn lex_le(a: Seq<u8>, b: Seq<u8>) -> bool {
    lex_le_from(a, b, 0)
}

/// The sort key of a group: the UTF-8 bytes of its first slug.
pub open spec fn first_key(g: Seq<Seq<char>>) -> Seq<u8> {
    encode_utf8(g[0])
}

pub open spec fn key_le(g: Seq<Seq<char>>, h: Seq<Seq<char>>) -> bool {
    lex_le(first_key(g), first_key(h))
}

/// Inserts `x` into `s` after the last element whose key is at most `x`'s.
pub open spec fn insert_sorted(s: Seq<Seq<Seq<char>>>, x: Seq<Seq<char>>) -> Seq<Seq<Seq<char>>>
    decreases s.len(),
{
    if s.len() == 0 {
        seq![x]
    } else if key_le(s.last(), x) {
        s.push(x)
    } else {
        insert_sorted(s.drop_last(), x).push(s.last())
    }
}

/// The stable sort of `s` by first slug.
pub open spec fn sort_by_first(s: Seq<Seq<Seq<char>>>) -> Seq<Seq<Seq<char>>>
    decreases s.len(),
{
    if s.len() == 0 {
        s
    } else {
        insert_sorted(sort_by_first(s.drop_last()), s.last())
    }
}

/// `s` with each run of equal adjacent elements kept once.
pub open spec fn dedup_adjacent(s: Seq<Seq<Seq<char>>>) -> Seq<Seq<Seq<char>>>
    decreases s.len(),
{
    if s.len() <= 1 {
        s
    } else if s.last() == s[s.len() - 2] {
        dedup_adjacent(s.drop_last())
    } else {
        dedup_adjacent(s.drop_last()).push(s.last())
    }
}

/// The groups the clusterer returns for `realms`.
pub open spec fn clustered(realms: Seq<RealmInfo>) -> Seq<Seq<Seq<char>>> {
    dedup_adjacent(sort_by_first(candidates(realms)))
}

/// Every realm names at least one connected realm (itself).
pub open spec fn all_groups_nonempty(realms: Seq<RealmInfo>) -> bool {
    forall|i: int| 0 <= i < realms.len() ==> (#[trigger] realms[i]).connected_realms@.len() > 0
}

fn bytes_le(a: &[u8], b: &[u8]) -> (r: bool)
    ensures
        r == lex_le(a@, b@),
{
    let mut i: usize = 0;
    while i < a.len()
        invariant
            0 <= i <= a@.len(),
            lex_le(a@, b@) == lex_le_from(a@, b@, i as int),
        decreases a.len() - i,
    {
        if i >= b.len() {
            return false;
        }
        if a[i] != b[i] {
            return a[i] < b[i];
        }
        i = i + 1;
    }
    true
}

fn first_slug_le(g: &Vec<String>, h: &Vec<String>) -> (r: bool)
    requires
        g@.len() > 0,
        h@.len() > 0,
    ensures
        r == key_le(group_view(*g), group_view(*h)),
{
    bytes_le(g[0].as_str().as_bytes(), h[0].as_str().as_bytes())
}

fn copy_group(g: &Vec<String>) -> (r: Vec<String>)
    ensures
        group_view(r) == group_view(*g),
        r@.len() == g@.len(),
{
    let mut r: Vec<String> = Vec::new();
    let mut i: usize = 0;
    while i < g.len()
        invariant
            0 <= i <= g@.len(),
            r@.len() == i,
            group_view(r) =~= group_view(*g).subrange(0, i as int),
        decreases g.len() - i,
    {
        let ghost before = r@;
        let s = g[i].clone();
        r.push(s);
        assert(group_view(r) =~= group_view(*g).subrange(0, i + 1)) by {
            assert(s == g@[i as int]);
            assert forall|j: int| 0 <= j < i implies group_view(r)[j] == before[j]@ by {
                assert(r@[j] == before[j]);
            }
            assert(group_view(r)[i as int] == s@);
        }
        i = i + 1;
    }
    assert(group_view(*g).subrange(0, g@.len() as int) =~= group_view(*g));
    r
}

fn same_group(a: &Vec<String>, b: &Vec<String>) -> (r: bool)
    ensures
        r == (group_view(*a) == group_view(*b)),
{
    if a.len() != b.len() {
        assert(group_view(*a).len() != group_view(*b).len());
        return false;
    }
    let mut i: usize = 0;
    while i < a.len()
        invariant
            a@.len() == b@.len(),
            0 <= i <= a@.len(),
            forall|j: int| 0 <= j < i ==> a@[j]@ == b@[j]@,
        decreases a.len() - i,
    {
        if a[i] != b[i] {
            assert(group_view(*a)[i as int] != group_view(*b)[i as int]);
            return false;
        }
        i = i + 1;
    }
    assert(group_view(*a) =~= group_view(*b));
    true
}

proof fn lemma_insert_sorted_at(s: Seq<Seq<Seq<char>>>, x: Seq<Seq<char>>, p: int)
    requires
        0 <= p <= s.len(),
        p == 0 || key_le(s[p - 1], x),
        forall|j: int| p <= j < s.len() ==> !key_le(#[trigger] s[j], x),
    ensures
        insert_sorted(s, x) == s.insert(p, x),
    decreases s.len(),
{
    if s.len() == 0 {
        assert(s.insert(p, x) =~= seq![x]);
    } else if p == s.len() {
        assert(s.insert(p, x) =~= s.push(x));
    } else {
        assert(!key_le(s.last(), x));
        lemma_insert_sorted_at(s.drop_last(), x, p);
        assert(s.drop_last().insert(p, x).push(s.last()) =~= s.insert(p, x));
    }
}

fn insert_by_first(sorted: &mut Vec<Vec<String>>, g: Vec<String>)
    requires
        old(sorted)@.len() == 0 || (g@.len() > 0 && forall|j: int|
            0 <= j < old(sorted)@.len() ==> (#[trigger] old(sorted)@[j])@.len() > 0),
    ensures
        groups_view(final(sorted)@) == insert_sorted(groups_view(old(sorted)@), group_view(g)),
        final(sorted)@.len() == old(sorted)@.len() + 1,
        g@.len() > 0 && (forall|j: int| 0 <= j < old(sorted)@.len() ==> (#[trigger] old(sorted)@[j])@.len() > 0)
            ==> forall|j: int| 0 <= j < final(sorted)@.len() ==> (#[trigger] final(sorted)@[j])@.len() > 0,
{
    let ghost s = groups_view(sorted@);
    let mut p: usize = sorted.len();
    while p > 0 && !first_slug_le(&sorted[p - 1], &g)
        invariant
            0 <= p <= sorted@.len(),
            sorted@ == old(sorted)@,
            p > 0 ==> g@.len() > 0,
            s == groups_view(sorted@),
            p > 0 ==> forall|j: int| 0 <= j < sorted@.len() ==> (#[trigger] sorted@[j])@.len() > 0,
            forall|j: int| p <= j < s.len() ==> !key_le(#[trigger] s[j], group_view(g)),
        decreases p,
    {
        p = p - 1;
    }
    proof {
        lemma_insert_sorted_at(s, group_view(g), p as int);
    }
    let ghost before = sorted@;
    let ghost gg = g;
    sorted.insert(p, g);
    assert(groups_view(sorted@) =~= s.insert(p as int, group_view(gg)));
    assert(sorted@ == before.insert(p as int, gg));
}

impl BattleNetApiClient {
    /// Turns the realms into the distinct groups of connected realms: each
    /// realm's list, stably sorted by first slug, with adjacent identical lists
    /// kept once. Sorting compares first slugs, so where there are two realms
    /// or more, each must list at least one.
    pub fn process_connected_realms(realm_infos: &Vec<RealmInfo>) -> (r: Vec<Vec<String>>)
        requires
            realm_infos@.len() <= 1 || all_groups_nonempty(realm_infos@),
        ensures
            groups_view(r@) == clustered(realm_infos@),
    {
        let ghost c = candidates(realm_infos@);
        let mut sorted: Vec<Vec<String>> = Vec::new();
        let mut i: usize = 0;
        while i < realm_infos.len()
            invariant
                0 <= i <= realm_infos@.len(),
                realm_infos@.len() <= 1 || all_groups_nonempty(realm_infos@),
                c == candidates(realm_infos@),
                groups_view(sorted@) == sort_by_first(c.subrange(0, i as int)),
                sorted@.len() == i,
                realm_infos@.len() > 1 ==> forall|j: int| 0 <= j < sorted@.len() ==> (#[trigger] sorted@[j])@.len() > 0,
            decreases realm_infos.len() - i,
        {
            let g = copy_group(&realm_infos[i].connected_realms);
            proof {
                if realm_infos@.len() > 1 {
                    assert(realm_infos@[i as int].connected_realms@.len() > 0);
                }
            }
            insert_by_first(&mut sorted, g);
            assert(c.subrange(0, i + 1).drop_last() =~= c.subrange(0, i as int));
            i = i + 1;
        }
        assert(c.subrange(0, c.len() as int) =~= c);
        let ghost t = groups_view(sorted@);
        let mut out: Vec<Vec<String>> = Vec::new();
        let mut k: usize = 0;
        while k < sorted.len()
            invariant
                0 <= k <= sorted@.len(),
                t == groups_view(sorted@),
                t == sort_by_first(c),
                groups_view(out@) == dedup_adjacent(t.subrange(0, k as int)),
                k > 0 ==> out@.len() > 0 && group_view(out@.last()) == t[k - 1],
            decreases sorted.len() - k,
        {
            let ghost pre = t.subrange(0, k as int);
            let ghost next = t.subrange(0, k + 1);
            assert(next.drop_last() =~= pre);
            if k == 0 || !same_group(&out[out.len() - 1], &sorted[k]) {
                let g = copy_group(&sorted[k]);
                out.push(g);
                proof {
                    if k == 0 {
                        assert(next =~= seq![t[0]]);
                    }
                }
                assert(groups_view(out@) =~= dedup_adjacent(next));
            }
            k = k + 1;
        }
        assert(t.subrange(0, t.len() as int) =~= t);
        out
    }
}

/// Keys are ordered by key: each element's key is at most every later one's.
pub open spec fn sorted_by_key(s: Seq<Seq<Seq<char>>>) -> bool {
    forall|i: int, j: int| 0 <= i < j < s.len() ==> key_le(#[trigger] s[i], #[trigger] s[j])
}

/// Groups with the same first slug are the same group, slugs in the same order.
pub open spec fn first_slug_decides(c: Seq<Seq<Seq<char>>>) -> bool {
    forall|i: int, j: int|
        0 <= i < c.len() && 0 <= j < c.len() && (#[trigger] c[i])[0] == (#[trigger] c[j])[0]
            ==> c[i] == c[j]
}

proof fn lemma_lex_total(a: Seq<u8>, b: Seq<u8>, i: int)
    requires
        0 <= i,
    ensures
        lex_le_from(a, b, i) || lex_le_from(b, a, i),
    decreases a.len() - i,
{
    if i < a.len() && i < b.len() && a[i] == b[i] {
        lemma_lex_total(a, b, i + 1);
    }
}

proof fn lemma_lex_trans(a: Seq<u8>, b: Seq<u8>, c: Seq<u8>, i: int)
    requires
        0 <= i,
        lex_le_from(a, b, i),
        lex_le_from(b, c, i),
    ensures
        lex_le_from(a, c, i),
    decreases a.len() - i,
{
    if i < a.len() && i < b.len() && i < c.len() && a[i] == b[i] && b[i] == c[i] {
        lemma_lex_trans(a, b, c, i + 1);
    }
}

proof fn lemma_lex_antisym(a: Seq<u8>, b: Seq<u8>, i: int)
    requires
        0 <= i <= a.len(),
        i <= b.len(),
        a.subrange(0, i) == b.subrange(0, i),
        lex_le_from(a, b, i),
        lex_le_from(b, a, i),
    ensures
        a == b,
    decreases a.len() - i,
{
    if i == a.len() {
        assert(a =~= a.subrange(0, i));
        assert(b =~= b.subrange(0, i));
    } else {
        assert(a.subrange(0, i + 1) =~= a.subrange(0, i).push(a[i]));
        assert(b.subrange(0, i + 1) =~= b.subrange(0, i).push(b[i]));
        lemma_lex_antisym(a, b, i + 1);
    }
}

/// Two groups whose keys are each at most the other have the same first slug.
proof fn lemma_key_antisym(g: Seq<Seq<char>>, h: Seq<Seq<char>>)
    requires
        key_le(g, h),
        key_le(h, g),
    ensures
        g[0] == h[0],
{
    assert(first_key(g).subrange(0, 0) =~= first_key(h).subrange(0, 0));
    lemma_lex_antisym(first_key(g), first_key(h), 0);
    vstd::utf8::encode_utf8_decode_utf8(g[0]);
    vstd::utf8::encode_utf8_decode_utf8(h[0]);
}

proof fn lemma_insert_sorted(s: Seq<Seq<Seq<char>>>, x: Seq<Seq<char>>)
    requires
        sorted_by_key(s),
    ensures
        sorted_by_key(insert_sorted(s, x)),
        forall|y: Seq<Seq<char>>| #[trigger] insert_sorted(s, x).contains(y) <==> s.contains(y) || y == x,
    decreases s.len(),
{
    let r = insert_sorted(s, x);
    if s.len() == 0 {
        assert(r =~= seq![x]);
        assert forall|y: Seq<Seq<char>>| #[trigger] r.contains(y) <==> s.contains(y) || y == x by {
            if r.contains(y) {
                assert(r[0] == y);
            }
            if y == x {
                assert(r[0] == y);
            }
        }
    } else if key_le(s.last(), x) {
        assert forall|i: int, j: int| 0 <= i < j < r.len() implies key_le(#[trigger] r[i], #[trigger] r[j]) by {
            if j == s.len() {
                assert(r[i] == s[i] && r[j] == x);
                if i < s.len() - 1 {
                    assert(key_le(s[i], s[s.len() - 1]));
                    lemma_lex_trans(first_key(s[i]), first_key(s.last()), first_key(x), 0);
                }
            } else {
                assert(r[i] == s[i] && r[j] == s[j]);
            }
        }
        assert forall|y: Seq<Seq<char>>| #[trigger] r.contains(y) <==> s.contains(y) || y == x by {
            if r.contains(y) {
                let k = choose|k: int| 0 <= k < r.len() && r[k] == y;
                if k < s.len() {
                    assert(s[k] == y);
                }
            }
            if s.contains(y) {
                let k = choose|k: int| 0 <= k < s.len() && s[k] == y;
                assert(r[k] == y);
            }
            if y == x {
                assert(r[s.len() as int] == y);
            }
        }
    } else {
        let d = s.drop_last();
        let l = s.last();
        assert(sorted_by_key(d)) by {
            assert forall|i: int, j: int| 0 <= i < j < d.len() implies key_le(#[trigger] d[i], #[trigger] d[j]) by {
                assert(d[i] == s[i] && d[j] == s[j]);
            }
        }
        lemma_insert_sorted(d, x);
        let q = insert_sorted(d, x);
        assert(r == q.push(l));
        lemma_lex_total(first_key(l), first_key(x), 0);
        assert forall|k: int| 0 <= k < q.len() implies key_le(#[trigger] q[k], l) by {
            assert(q.contains(q[k]));
            if q[k] != x {
                let m = choose|m: int| 0 <= m < d.len() && d[m] == q[k];
                assert(s[m] == q[k]);
            }
        }
        assert forall|i: int, j: int| 0 <= i < j < r.len() implies key_le(#[trigger] r[i], #[trigger] r[j]) by {
            if j == q.len() {
                assert(r[i] == q[i]);
            } else {
                assert(r[i] == q[i] && r[j] == q[j]);
            }
        }
        assert forall|y: Seq<Seq<char>>| #[trigger] r.contains(y) <==> s.contains(y) || y == x by {
            if r.contains(y) {
                let k = choose|k: int| 0 <= k < r.len() && r[k] == y;
                if k < q.len() {
                    assert(q[k] == y);
                    assert(q.contains(y));
                    if y != x {
                        let m = choose|m: int| 0 <= m < d.len() && d[m] == y;
                        assert(s[m] == y);
                    }
                } else {
                    assert(s[s.len() - 1] == y);
                }
            }
            if s.contains(y) {
                let k = choose|k: int| 0 <= k < s.len() && s[k] == y;
                if k == s.len() - 1 {
                    assert(r[q.len() as int] == y);
                } else {
                    assert(d[k] == y);
                    assert(d.contains(y));
                    assert(q.contains(y));
                    let m = choose|m: int| 0 <= m < q.len() && q[m] == y;
                    assert(r[m] == y);
                }
            }
            if y == x {
                assert(q.contains(x));
                let m = choose|m: int| 0 <= m < q.len() && q[m] == y;
                assert(r[m] == y);
            }
        }
    }
}

proof fn lemma_sort_by_first(s: Seq<Seq<Seq<char>>>)
    ensures
        sorted_by_key(sort_by_first(s)),
        forall|y: Seq<Seq<char>>| #[trigger] sort_by_first(s).contains(y) <==> s.contains(y),
    decreases s.len(),
{
    if s.len() > 0 {
        let d = s.drop_last();
        lemma_sort_by_first(d);
        lemma_insert_sorted(sort_by_first(d), s.last());
        assert forall|y: Seq<Seq<char>>| #[trigger] sort_by_first(s).contains(y) <==> s.contains(y) by {
            if s.contains(y) && y != s.last() {
                let k = choose|k: int| 0 <= k < s.len() && s[k] == y;
                assert(d[k] == y);
            }
            if d.contains(y) {
                let k = choose|k: int| 0 <= k < d.len() && d[k] == y;
                assert(s[k] == y);
            }
            if y == s.last() {
                assert(s[s.len() - 1] == y);
            }
        }
    }
}

proof fn lemma_dedup_adjacent(s: Seq<Seq<Seq<char>>>)
    ensures
        forall|y: Seq<Seq<char>>| #[trigger] dedup_adjacent(s).contains(y) <==> s.contains(y),
        s.len() > 0 ==> dedup_adjacent(s).len() > 0 && dedup_adjacent(s).last() == s.last(),
        forall|i: int| 0 <= i < dedup_adjacent(s).len() - 1 ==> #[trigger] dedup_adjacent(s)[i] != dedup_adjacent(s)[i + 1],
        sorted_by_key(s) ==> sorted_by_key(dedup_adjacent(s)),
    decreases s.len(),
{
    if s.len() > 1 {
        let d = s.drop_last();
        let l = s.last();
        lemma_dedup_adjacent(d);
        let q = dedup_adjacent(d);
        let r = dedup_adjacent(s);
        assert(d.last() == s[s.len() - 2]);
        assert forall|y: Seq<Seq<char>>| #[trigger] r.contains(y) <==> s.contains(y) by {
            if s.contains(y) {
                let k = choose|k: int| 0 <= k < s.len() && s[k] == y;
                if k < d.len() {
                    assert(d[k] == y);
                    assert(d.contains(y));
                    assert(q.contains(y));
                    let m = choose|m: int| 0 <= m < q.len() && q[m] == y;
                    if l == s[s.len() - 2] {
                        assert(r[m] == y);
                    } else {
                        assert(r[m] == y);
                    }
                } else if l == s[s.len() - 2] {
                    assert(q[q.len() - 1] == y);
                    assert(r[q.len() - 1] == y);
                } else {
                    assert(r[q.len() as int] == y);
                }
            }
            if r.contains(y) {
                let k = choose|k: int| 0 <= k < r.len() && r[k] == y;
                if k < q.len() {
                    assert(q[k] == y);
                    assert(q.contains(y));
                    let m = choose|m: int| 0 <= m < d.len() && d[m] == y;
                    assert(s[m] == y);
                } else {
                    assert(s[s.len() - 1] == y);
                }
            }
        }
        assert forall|i: int| 0 <= i < r.len() - 1 implies #[trigger] r[i] != r[i + 1] by {
            if l != s[s.len() - 2] && i == q.len() - 1 {
                assert(r[i] == q.last());
            } else if l != s[s.len() - 2] {
                assert(r[i] == q[i] && r[i + 1] == q[i + 1]);
            }
        }
        if sorted_by_key(s) {
            assert(sorted_by_key(d)) by {
                assert forall|i: int, j: int| 0 <= i < j < d.len() implies key_le(#[trigger] d[i], #[trigger] d[j]) by {
                    assert(d[i] == s[i] && d[j] == s[j]);
                }
            }
            assert forall|i: int, j: int| 0 <= i < j < r.len() implies key_le(#[trigger] r[i], #[trigger] r[j]) by {
                if j < q.len() {
                    assert(r[i] == q[i] && r[j] == q[j]);
                } else {
                    assert(r[i] == q[i]);
                    assert(q.contains(q[i]));
                    let m = choose|m: int| 0 <= m < d.len() && d[m] == q[i];
                    assert(s[m] == q[i]);
                    assert(r[j] == l);
                }
            }
        }
    }
}

/// The groups come out ordered by the bytes of their first slug, and no two
/// neighbouring groups are identical.
pub proof fn lemma_clusters_ordered(realms: Seq<RealmInfo>)
    ensures
        sorted_by_key(clustered(realms)),
        forall|i: int| 0 <= i < clustered(realms).len() - 1 ==> #[trigger] clustered(realms)[i] != clustered(realms)[i + 1],
{
    lemma_sort_by_first(candidates(realms));
    lemma_dedup_adjacent(sort_by_first(candidates(realms)));
}

/// Clustering loses no realm's list and invents none: every output group is
/// some realm's list, and every realm's list is among the output groups.
pub proof fn lemma_clusters_cover(realms: Seq<RealmInfo>)
    ensures
        forall|k: int| 0 <= k < clustered(realms).len() ==> candidates(realms).contains(#[trigger] clustered(realms)[k]),
        forall|i: int| 0 <= i < realms.len() ==> clustered(realms).contains(#[trigger] candidates(realms)[i]),
{
    let c = candidates(realms);
    let o = clustered(realms);
    lemma_sort_by_first(c);
    lemma_dedup_adjacent(sort_by_first(c));
    assert forall|k: int| 0 <= k < o.len() implies c.contains(#[trigger] o[k]) by {
        assert(o.contains(o[k]));
    }
    assert forall|i: int| 0 <= i < realms.len() implies o.contains(#[trigger] c[i]) by {
        assert(c.contains(c[i]));
    }
}

/// When realms with the same first connected slug list the same group in the
/// same order, the clusterer returns each group once: no two output groups are
/// identical, so every realm's list is exactly one output group.
pub proof fn lemma_clusters_distinct(realms: Seq<RealmInfo>)
    requires
        first_slug_decides(candidates(realms)),
    ensures
        forall|i: int, j: int|
            0 <= i < j < clustered(realms).len() ==> #[trigger] clustered(realms)[i] != #[trigger] clustered(realms)[j],
        forall|i: int| 0 <= i < realms.len() ==> clustered(realms).contains(#[trigger] candidates(realms)[i]),
        forall|i: int, k1: int, k2: int|
            0 <= i < realms.len() && 0 <= k1 < clustered(realms).len() && 0 <= k2 < clustered(realms).len()
                && #[trigger] clustered(realms)[k1] == #[trigger] candidates(realms)[i]
                && #[trigger] clustered(realms)[k2] == candidates(realms)[i] ==> k1 == k2,
{
    let c = candidates(realms);
    let t = sort_by_first(c);
    let o = clustered(realms);
    lemma_sort_by_first(c);
    lemma_dedup_adjacent(t);
    lemma_clusters_cover(realms);
    assert forall|i: int, j: int| 0 <= i < j < o.len() implies #[trigger] o[i] != #[trigger] o[j] by {
        if o[i] == o[j] {
            assert(o[i] != o[i + 1]);
            if i + 1 < j {
                assert(key_le(o[i + 1], o[j]));
            }
            assert(key_le(o[i + 1], o[i]));
            assert(key_le(o[i], o[i + 1]));
            lemma_key_antisym(o[i], o[i + 1]);
            assert(o.contains(o[i]) && o.contains(o[i + 1]));
            let m1 = choose|m: int| 0 <= m < c.len() && c[m] == o[i];
            let m2 = choose|m: int| 0 <= m < c.len() && c[m] == o[i + 1];
            assert(c[m1][0] == c[m2][0]);
        }
    }
}

} // verus!
