use vstd::prelude::*;

verus! {

/// The keys of `s` never decrease from left to right.
pub open spec fn sorted(s: Seq<u16>) -> bool {
    forall|i: int, j: int| 0 <= i <= j < s.len() ==> s[i] <= s[j]
}

/// Every key of `s` is at least `lo`.
pub open spec fn all_ge(s: Seq<u16>, lo: u16) -> bool {
    forall|i: int| 0 <= i < s.len() ==> lo <= #[trigger] s[i]
}

/// Every key of `s` is at most `hi`.
pub open spec fn all_le(s: Seq<u16>, hi: u16) -> bool {
    forall|i: int| 0 <= i < s.len() ==> #[trigger] s[i] <= hi
}

/// Each subtree sequence followed by its separator key, left to right:
/// `kids[0] + [keys[0]] + kids[1] + [keys[1]] + ...`.
pub open spec fn pairs(kids: Seq<Seq<u16>>, keys: Seq<u16>) -> Seq<u16>
    recommends
        kids.len() == keys.len(),
    decreases kids.len(),
{
    if kids.len() == 0 || keys.len() == 0 {
        Seq::empty()
    } else {
        pairs(kids.drop_last(), keys.drop_last()) + kids.last() + seq![keys.last()]
    }
}

/// The traversal order of a node: subtrees and separator keys alternate,
/// starting and ending with a subtree.
pub open spec fn weave(kids: Seq<Seq<u16>>, keys: Seq<u16>) -> Seq<u16>
    recommends
        kids.len() == keys.len() + 1,
{
    pairs(kids.drop_last(), keys) + kids.last()
}

/// The subtree sequences respect the separators: subtree `j` lies between
/// `keys[j - 1]` and `keys[j]`, and the subtrees and the separators are sorted.
pub open spec fn separated(kids: Seq<Seq<u16>>, keys: Seq<u16>) -> bool {
    &&& sorted(keys)
    &&& forall|j: int| 0 <= j < kids.len() ==> sorted(#[trigger] kids[j])
    &&& forall|j: int| 0 <= j < kids.len() && j < keys.len() ==> all_le(#[trigger] kids[j], keys[j])
    &&& forall|j: int| 0 < j < kids.len() && j <= keys.len() ==> all_ge(#[trigger] kids[j], keys[j - 1])
}

pub proof fn lemma_pairs_concat(k1: Seq<Seq<u16>>, s1: Seq<u16>, k2: Seq<Seq<u16>>, s2: Seq<u16>)
    requires
        k1.len() == s1.len(),
        k2.len() == s2.len(),
    ensures
        pairs(k1 + k2, s1 + s2) == pairs(k1, s1) + pairs(k2, s2),
    decreases k2.len(),
{
    if k2.len() == 0 {
        assert(k1 + k2 =~= k1);
        assert(s1 + s2 =~= s1);
        assert(pairs(k1, s1) + pairs(k2, s2) =~= pairs(k1, s1));
    } else {
        lemma_pairs_concat(k1, s1, k2.drop_last(), s2.drop_last());
        assert((k1 + k2).drop_last() =~= k1 + k2.drop_last());
        assert((s1 + s2).drop_last() =~= s1 + s2.drop_last());
        assert((k1 + k2).last() == k2.last());
        assert((s1 + s2).last() == s2.last());
        assert(pairs(k1 + k2, s1 + s2) =~= pairs(k1, s1) + pairs(k2, s2));
    }
}

pub proof fn lemma_pairs_one(kid: Seq<u16>, key: u16)
    ensures
        pairs(seq![kid], seq![key]) == kid + seq![key],
{
    assert(seq![kid].drop_last() =~= Seq::<Seq<u16>>::empty());
    assert(pairs(seq![kid].drop_last(), seq![key].drop_last()) =~= Seq::<u16>::empty());
    assert(pairs(seq![kid], seq![key]) =~= kid + seq![key]);
}

/// With no subtrees to speak of (a leaf), the traversal is the keys themselves.
pub proof fn lemma_pairs_of_empty_kids(kids: Seq<Seq<u16>>, keys: Seq<u16>)
    requires
        kids.len() == keys.len(),
        forall|j: int| 0 <= j < kids.len() ==> (#[trigger] kids[j]).len() == 0,
    ensures
        pairs(kids, keys) == keys,
    decreases kids.len(),
{
    if kids.len() == 0 {
        assert(pairs(kids, keys) =~= keys);
    } else {
        lemma_pairs_of_empty_kids(kids.drop_last(), keys.drop_last());
        assert(kids.last().len() == 0);
        assert(pairs(kids, keys) =~= keys.drop_last() + seq![keys.last()]);
        assert(keys.drop_last() + seq![keys.last()] =~= keys);
    }
}

/// A key occurs in the traversal exactly if it is a separator or occurs in a subtree.
pub proof fn lemma_pairs_contains(kids: Seq<Seq<u16>>, keys: Seq<u16>, k: u16)
    requires
        kids.len() == keys.len(),
    ensures
        pairs(kids, keys).contains(k) <==> (keys.contains(k) || exists|j: int|
            0 <= j < kids.len() && (#[trigger] kids[j]).contains(k)),
    decreases kids.len(),
{
    if kids.len() == 0 {
        assert(!pairs(kids, keys).contains(k));
        assert(!keys.contains(k));
    } else {
        let k0 = kids.drop_last();
        let s0 = keys.drop_last();
        lemma_pairs_contains(k0, s0, k);
        let p0 = pairs(k0, s0);
        let all = pairs(kids, keys);
        assert(all == p0 + kids.last() + seq![keys.last()]);
        if all.contains(k) {
            let i = choose|i: int| 0 <= i < all.len() && all[i] == k;
            if i < p0.len() {
                assert(p0[i] == k);
                assert(p0.contains(k));
                if s0.contains(k) {
                    let m = choose|m: int| 0 <= m < s0.len() && s0[m] == k;
                    assert(keys[m] == k);
                } else {
                    let j = choose|j: int| 0 <= j < k0.len() && (#[trigger] k0[j]).contains(k);
                    assert(kids[j] == k0[j]);
                }
            } else if i < p0.len() + kids.last().len() {
                assert(kids.last()[i - p0.len()] == k);
                assert(kids[kids.len() - 1].contains(k));
            } else {
                assert(keys[keys.len() - 1] == k);
            }
        }
        if keys.contains(k) {
            let m = choose|m: int| 0 <= m < keys.len() && keys[m] == k;
            if m < s0.len() {
                assert(s0[m] == k);
                assert(p0.contains(k));
                let i = choose|i: int| 0 <= i < p0.len() && p0[i] == k;
                assert(all[i] == k);
            } else {
                assert(all[all.len() - 1] == k);
            }
        }
        if exists|j: int| 0 <= j < kids.len() && (#[trigger] kids[j]).contains(k) {
            let j = choose|j: int| 0 <= j < kids.len() && (#[trigger] kids[j]).contains(k);
            if j < k0.len() {
                assert(k0[j] == kids[j]);
                assert(p0.contains(k));
                let i = choose|i: int| 0 <= i < p0.len() && p0[i] == k;
                assert(all[i] == k);
            } else {
                let i = choose|i: int| 0 <= i < kids[j].len() && kids[j][i] == k;
                assert(all[p0.len() + i] == k);
            }
        }
    }
}

/// Subtrees that respect their separators give a sorted traversal, bounded by
/// the last separator.
pub proof fn lemma_pairs_sorted(kids: Seq<Seq<u16>>, keys: Seq<u16>)
    requires
        kids.len() == keys.len(),
        separated(kids, keys),
    ensures
        sorted(pairs(kids, keys)),
        keys.len() > 0 ==> all_le(pairs(kids, keys), keys.last()),
    decreases kids.len(),
{
    if kids.len() > 0 {
        let k0 = kids.drop_last();
        let s0 = keys.drop_last();
        assert(separated(k0, s0)) by {
            assert forall|j: int| 0 <= j < k0.len() implies sorted(#[trigger] k0[j]) by {
                assert(k0[j] == kids[j]);
            }
            assert forall|j: int| 0 <= j < k0.len() && j < s0.len() implies all_le(
                #[trigger] k0[j],
                s0[j],
            ) by {
                assert(k0[j] == kids[j]);
            }
            assert forall|j: int| 0 < j < k0.len() && j <= s0.len() implies all_ge(
                #[trigger] k0[j],
                s0[j - 1],
            ) by {
                assert(k0[j] == kids[j]);
            }
        }
        lemma_pairs_sorted(k0, s0);
        let p0 = pairs(k0, s0);
        let last = kids.last();
        let key = keys.last();
        let all = pairs(kids, keys);
        assert(all == p0 + last + seq![key]);
        let n = kids.len() - 1;
        assert(kids[n] == last);
        assert(sorted(last));
        assert(all_le(last, key));
        if n > 0 {
            assert(all_ge(last, keys[n - 1]));
            assert(s0.last() == keys[n - 1]);
            assert(all_le(p0, keys[n - 1]));
        }
        assert forall|i: int| 0 <= i < all.len() implies #[trigger] all[i] <= key by {
            if i < p0.len() {
                assert(all[i] == p0[i]);
                assert(keys[n - 1] <= keys[n]);
            } else if i < p0.len() + last.len() {
                assert(all[i] == last[i - p0.len()]);
            }
        }
        assert forall|i: int, j: int| 0 <= i <= j < all.len() implies all[i] <= all[j] by {
            if j < p0.len() {
                assert(all[i] == p0[i] && all[j] == p0[j]);
            } else if j < p0.len() + last.len() {
                assert(all[j] == last[j - p0.len()]);
                if i < p0.len() {
                    assert(all[i] == p0[i]);
                } else {
                    assert(all[i] == last[i - p0.len()]);
                }
            } else {
                assert(all[j] == key);
            }
        }
    } else {
        assert(pairs(kids, keys) =~= Seq::<u16>::empty());
    }
}

/// The traversal splits at separator `m` into the traversal of what lies left
/// of it, the separator, and the traversal of what lies right of it.
pub proof fn lemma_weave_split(kids: Seq<Seq<u16>>, keys: Seq<u16>, m: int)
    requires
        kids.len() == keys.len() + 1,
        0 <= m < keys.len(),
    ensures
        weave(kids, keys) == weave(kids.take(m + 1), keys.take(m)) + seq![keys[m]] + weave(
            kids.skip(m + 1),
            keys.skip(m + 1),
        ),
{
    let front = kids.drop_last();
    let a = kids.take(m);
    let b = kids.subrange(m + 1, kids.len() - 1);
    let sa = keys.take(m);
    let sb = keys.skip(m + 1);
    assert(front =~= a + seq![kids[m]] + b);
    assert(keys =~= sa + seq![keys[m]] + sb);
    lemma_pairs_concat(a, sa, seq![kids[m]], seq![keys[m]]);
    lemma_pairs_concat(a + seq![kids[m]], sa + seq![keys[m]], b, sb);
    lemma_pairs_one(kids[m], keys[m]);
    assert(kids.take(m + 1).drop_last() =~= a);
    assert(kids.take(m + 1).last() == kids[m]);
    assert(kids.skip(m + 1).drop_last() =~= b);
    assert(kids.skip(m + 1).last() == kids.last());
    assert(weave(kids, keys) =~= weave(kids.take(m + 1), keys.take(m)) + seq![keys[m]] + weave(
        kids.skip(m + 1),
        keys.skip(m + 1),
    ));
}

/// Replacing subtree `i` by its two halves, with the key between them as a new
/// separator, leaves the traversal as it was.
pub proof fn lemma_weave_join(
    kids: Seq<Seq<u16>>,
    keys: Seq<u16>,
    i: int,
    left: Seq<u16>,
    mid: u16,
    right: Seq<u16>,
)
    requires
        kids.len() == keys.len() + 1,
        0 <= i < kids.len(),
        kids[i] == left + seq![mid] + right,
    ensures
        weave(kids.update(i, left).insert(i + 1, right), keys.insert(i, mid)) == weave(kids, keys),
{
    let kids2 = kids.update(i, left).insert(i + 1, right);
    let keys2 = keys.insert(i, mid);
    let a = kids.take(i);
    let sa = keys.take(i);
    assert(kids2.len() == keys2.len() + 1);
    if i < keys.len() {
        let b = kids.subrange(i + 1, kids.len() - 1);
        let sb = keys.skip(i + 1);
        assert(kids.drop_last() =~= a + seq![kids[i]] + b);
        assert(keys =~= sa + seq![keys[i]] + sb);
        lemma_pairs_concat(a, sa, seq![kids[i]], seq![keys[i]]);
        lemma_pairs_concat(a + seq![kids[i]], sa + seq![keys[i]], b, sb);
        lemma_pairs_one(kids[i], keys[i]);
        assert(kids2.drop_last() =~= a + seq![left] + seq![right] + b);
        assert(keys2 =~= sa + seq![mid] + seq![keys[i]] + sb);
        lemma_pairs_concat(a, sa, seq![left], seq![mid]);
        lemma_pairs_concat(a + seq![left], sa + seq![mid], seq![right], seq![keys[i]]);
        lemma_pairs_concat(
            a + seq![left] + seq![right],
            sa + seq![mid] + seq![keys[i]],
            b,
            sb,
        );
        lemma_pairs_one(left, mid);
        lemma_pairs_one(right, keys[i]);
        assert(kids2.last() == kids.last());
        assert(weave(kids2, keys2) =~= weave(kids, keys));
    } else {
        assert(kids.drop_last() =~= a);
        assert(keys =~= sa);
        assert(kids2.drop_last() =~= a + seq![left]);
        assert(keys2 =~= sa + seq![mid]);
        lemma_pairs_concat(a, sa, seq![left], seq![mid]);
        lemma_pairs_one(left, mid);
        assert(kids2.last() == right);
        assert(weave(kids2, keys2) =~= weave(kids, keys));
    }
}

/// Adding `key` at place `p` of subtree `c` adds it at one place of the traversal.
pub proof fn lemma_weave_insert(
    kids: Seq<Seq<u16>>,
    keys: Seq<u16>,
    c: int,
    p: int,
    key: u16,
) -> (q: int)
    requires
        kids.len() == keys.len() + 1,
        0 <= c < kids.len(),
        0 <= p <= kids[c].len(),
    ensures
        0 <= q <= weave(kids, keys).len(),
        weave(kids.update(c, kids[c].insert(p, key)), keys) == weave(kids, keys).insert(q, key),
{
    let grown = kids[c].insert(p, key);
    let kids2 = kids.update(c, grown);
    let a = kids.take(c);
    let sa = keys.take(c);
    let head = pairs(a, sa);
    if c < keys.len() {
        let b = kids.subrange(c + 1, kids.len() - 1);
        let sb = keys.skip(c + 1);
        assert(kids.drop_last() =~= a + seq![kids[c]] + b);
        assert(kids2.drop_last() =~= a + seq![grown] + b);
        assert(keys =~= sa + seq![keys[c]] + sb);
        lemma_pairs_concat(a, sa, seq![kids[c]], seq![keys[c]]);
        lemma_pairs_concat(a + seq![kids[c]], sa + seq![keys[c]], b, sb);
        lemma_pairs_one(kids[c], keys[c]);
        lemma_pairs_concat(a, sa, seq![grown], seq![keys[c]]);
        lemma_pairs_concat(a + seq![grown], sa + seq![keys[c]], b, sb);
        lemma_pairs_one(grown, keys[c]);
        assert(kids2.last() == kids.last());
        let q = head.len() + p;
        assert(weave(kids2, keys) =~= weave(kids, keys).insert(q, key));
        q
    } else {
        assert(kids.drop_last() =~= a);
        assert(kids2.drop_last() =~= a);
        assert(keys =~= sa);
        let q = head.len() + p;
        assert(weave(kids2, keys) =~= weave(kids, keys).insert(q, key));
        q
    }
}

/// The halves of a split subtree respect the separators of the node above,
/// with the key between them as the separator that parts them.
pub proof fn lemma_separated_join(
    kids: Seq<Seq<u16>>,
    keys: Seq<u16>,
    i: int,
    left: Seq<u16>,
    mid: u16,
    right: Seq<u16>,
)
    requires
        kids.len() == keys.len() + 1,
        0 <= i < kids.len(),
        kids[i] == left + seq![mid] + right,
        separated(kids, keys),
    ensures
        separated(kids.update(i, left).insert(i + 1, right), keys.insert(i, mid)),
{
    let whole = kids[i];
    let kids2 = kids.update(i, left).insert(i + 1, right);
    let keys2 = keys.insert(i, mid);
    assert(sorted(whole));
    assert(whole[left.len() as int] == mid);
    assert forall|x: int| 0 <= x < left.len() implies left[x] == whole[x] by {}
    assert forall|x: int| 0 <= x < right.len() implies right[x] == whole[left.len() + 1 + x] by {}
    assert(sorted(left)) by {
        assert forall|x: int, y: int| 0 <= x <= y < left.len() implies left[x] <= left[y] by {
            assert(whole[x] <= whole[y]);
        }
    }
    assert(sorted(right)) by {
        assert forall|x: int, y: int| 0 <= x <= y < right.len() implies right[x] <= right[y] by {
            assert(whole[left.len() + 1 + x] <= whole[left.len() + 1 + y]);
        }
    }
    assert(all_le(left, mid)) by {
        assert forall|x: int| 0 <= x < left.len() implies #[trigger] left[x] <= mid by {
            assert(whole[x] <= whole[left.len() as int]);
        }
    }
    assert(all_ge(right, mid)) by {
        assert forall|x: int| 0 <= x < right.len() implies mid <= #[trigger] right[x] by {
            assert(whole[left.len() as int] <= whole[left.len() + 1 + x]);
        }
    }
    if i < keys.len() {
        assert(all_le(whole, keys[i]));
        assert(mid <= keys[i]);
        assert(all_le(right, keys[i])) by {
            assert forall|x: int| 0 <= x < right.len() implies #[trigger] right[x] <= keys[i] by {
                assert(whole[left.len() + 1 + x] <= keys[i]);
            }
        }
    }
    if i > 0 {
        assert(all_ge(whole, keys[i - 1]));
        assert(keys[i - 1] <= mid);
        assert(all_ge(left, keys[i - 1])) by {
            assert forall|x: int| 0 <= x < left.len() implies keys[i - 1] <= #[trigger] left[x] by {
                assert(keys[i - 1] <= whole[x]);
            }
        }
    }
    assert(sorted(keys2)) by {
        assert forall|x: int, y: int| 0 <= x <= y < keys2.len() implies keys2[x] <= keys2[y] by {
            if x < i {
                if y < i {
                    assert(keys[x] <= keys[y]);
                } else if y == i {
                    assert(keys[x] <= keys[i - 1]);
                } else {
                    assert(keys[x] <= keys[y - 1]);
                }
            } else if x == i {
                if y > i {
                    assert(keys[i] <= keys[y - 1]);
                }
            } else {
                assert(keys[x - 1] <= keys[y - 1]);
            }
        }
    }
    assert forall|j: int| 0 <= j < kids2.len() implies sorted(#[trigger] kids2[j]) by {
        if j < i {
            assert(kids2[j] == kids[j]);
        } else if j > i + 1 {
            assert(kids2[j] == kids[j - 1]);
        }
    }
    assert forall|j: int| 0 <= j < kids2.len() && j < keys2.len() implies all_le(
        #[trigger] kids2[j],
        keys2[j],
    ) by {
        if j < i {
            assert(kids2[j] == kids[j]);
            assert(keys2[j] == keys[j]);
        } else if j > i + 1 {
            assert(kids2[j] == kids[j - 1]);
            assert(keys2[j] == keys[j - 1]);
        } else if j == i + 1 {
            assert(keys2[j] == keys[i]);
        }
    }
    assert forall|j: int| 0 < j < kids2.len() && j <= keys2.len() implies all_ge(
        #[trigger] kids2[j],
        keys2[j - 1],
    ) by {
        if j < i {
            assert(kids2[j] == kids[j]);
            assert(keys2[j - 1] == keys[j - 1]);
        } else if j > i + 1 {
            assert(kids2[j] == kids[j - 1]);
            assert(keys2[j - 1] == keys[j - 2]);
        } else if j == i {
            assert(keys2[j - 1] == keys[i - 1]);
        }
    }
}

/// What lies left of separator `m`, and what lies right of it, respects the
/// separators that are left to it.
pub proof fn lemma_separated_parts(kids: Seq<Seq<u16>>, keys: Seq<u16>, m: int)
    requires
        kids.len() == keys.len() + 1,
        0 <= m < keys.len(),
        separated(kids, keys),
    ensures
        separated(kids.take(m + 1), keys.take(m)),
        separated(kids.skip(m + 1), keys.skip(m + 1)),
{
    let k1 = kids.take(m + 1);
    let s1 = keys.take(m);
    let k2 = kids.skip(m + 1);
    let s2 = keys.skip(m + 1);
    assert(sorted(s1)) by {
        assert forall|x: int, y: int| 0 <= x <= y < s1.len() implies s1[x] <= s1[y] by {
            assert(keys[x] <= keys[y]);
        }
    }
    assert(sorted(s2)) by {
        assert forall|x: int, y: int| 0 <= x <= y < s2.len() implies s2[x] <= s2[y] by {
            assert(keys[x + m + 1] <= keys[y + m + 1]);
        }
    }
    assert forall|j: int| 0 <= j < k1.len() implies sorted(#[trigger] k1[j]) by {
        assert(k1[j] == kids[j]);
    }
    assert forall|j: int| 0 <= j < k1.len() && j < s1.len() implies all_le(
        #[trigger] k1[j],
        s1[j],
    ) by {
        assert(k1[j] == kids[j]);
    }
    assert forall|j: int| 0 < j < k1.len() && j <= s1.len() implies all_ge(
        #[trigger] k1[j],
        s1[j - 1],
    ) by {
        assert(k1[j] == kids[j]);
    }
    assert forall|j: int| 0 <= j < k2.len() implies sorted(#[trigger] k2[j]) by {
        assert(k2[j] == kids[j + m + 1]);
    }
    assert forall|j: int| 0 <= j < k2.len() && j < s2.len() implies all_le(
        #[trigger] k2[j],
        s2[j],
    ) by {
        assert(k2[j] == kids[j + m + 1]);
        assert(s2[j] == keys[j + m + 1]);
    }
    assert forall|j: int| 0 < j < k2.len() && j <= s2.len() implies all_ge(
        #[trigger] k2[j],
        s2[j - 1],
    ) by {
        assert(k2[j] == kids[j + m + 1]);
        assert(s2[j - 1] == keys[j + m]);
    }
}

/// A subtree that has grown by a key between its separators still respects them.
pub proof fn lemma_separated_insert(
    kids: Seq<Seq<u16>>,
    keys: Seq<u16>,
    c: int,
    p: int,
    key: u16,
)
    requires
        kids.len() == keys.len() + 1,
        0 <= c < kids.len(),
        0 <= p <= kids[c].len(),
        separated(kids, keys),
        sorted(kids[c].insert(p, key)),
        c < keys.len() ==> key <= keys[c],
        c > 0 ==> keys[c - 1] <= key,
    ensures
        separated(kids.update(c, kids[c].insert(p, key)), keys),
{
    let grown = kids[c].insert(p, key);
    let kids2 = kids.update(c, grown);
    assert forall|j: int| 0 <= j < kids2.len() implies sorted(#[trigger] kids2[j]) by {
        if j != c {
            assert(kids2[j] == kids[j]);
        }
    }
    assert forall|j: int| 0 <= j < kids2.len() && j < keys.len() implies all_le(
        #[trigger] kids2[j],
        keys[j],
    ) by {
        if j != c {
            assert(kids2[j] == kids[j]);
        } else {
            assert(all_le(kids[c], keys[c]));
            assert forall|x: int| 0 <= x < grown.len() implies #[trigger] grown[x] <= keys[c] by {
                if x < p {
                    assert(grown[x] == kids[c][x]);
                } else if x > p {
                    assert(grown[x] == kids[c][x - 1]);
                }
            }
        }
    }
    assert forall|j: int| 0 < j < kids2.len() && j <= keys.len() implies all_ge(
        #[trigger] kids2[j],
        keys[j - 1],
    ) by {
        if j != c {
            assert(kids2[j] == kids[j]);
        } else {
            assert(all_ge(kids[c], keys[c - 1]));
            assert forall|x: int| 0 <= x < grown.len() implies keys[c - 1] <= #[trigger] grown[x] by {
                if x < p {
                    assert(grown[x] == kids[c][x]);
                } else if x > p {
                    assert(grown[x] == kids[c][x - 1]);
                }
            }
        }
    }
}

/// Where the first subtree has keys, the traversal starts with its first key.
pub proof fn lemma_pairs_first(kids: Seq<Seq<u16>>, keys: Seq<u16>)
    requires
        kids.len() == keys.len(),
        kids.len() > 0,
    ensures
        pairs(kids, keys).len() > 0,
        pairs(kids, keys)[0] == if kids[0].len() > 0 {
            kids[0][0]
        } else {
            keys[0]
        },
    decreases kids.len(),
{
    let k0 = kids.drop_last();
    let s0 = keys.drop_last();
    assert(pairs(kids, keys) == pairs(k0, s0) + kids.last() + seq![keys.last()]);
    if kids.len() == 1 {
        assert(pairs(k0, s0) =~= Seq::<u16>::empty());
    } else {
        lemma_pairs_first(k0, s0);
        assert(k0[0] == kids[0]);
        assert(s0[0] == keys[0]);
    }
}

/// A sorted sequence lies under a bound exactly if its last key does.
pub proof fn lemma_sorted_all_le(s: Seq<u16>, hi: u16)
    requires
        sorted(s),
        s.len() > 0,
    ensures
        all_le(s, hi) <==> s.last() <= hi,
{
    if s.last() <= hi {
        assert forall|i: int| 0 <= i < s.len() implies #[trigger] s[i] <= hi by {
            assert(s[i] <= s[s.len() - 1]);
        }
    } else {
        assert(!(s[s.len() - 1] <= hi));
    }
}

/// A sorted sequence lies over a bound exactly if its first key does.
pub proof fn lemma_sorted_all_ge(s: Seq<u16>, lo: u16)
    requires
        sorted(s),
        s.len() > 0,
    ensures
        all_ge(s, lo) <==> lo <= s.first(),
{
    if lo <= s.first() {
        assert forall|i: int| 0 <= i < s.len() implies lo <= #[trigger] s[i] by {
            assert(s[0] <= s[i]);
        }
    } else {
        assert(!(lo <= s[0]));
    }
}

/// What follows subtree `i` in the traversal: separator `i` and all behind
/// it, and nothing behind the last subtree.
pub open spec fn rest_after(kids: Seq<Seq<u16>>, keys: Seq<u16>, i: int) -> Seq<u16> {
    if 0 <= i < keys.len() {
        seq![keys[i]] + weave(kids.skip(i + 1), keys.skip(i + 1))
    } else {
        Seq::empty()
    }
}

/// The traversal from subtree `i` on is that subtree and what follows it.
pub proof fn lemma_weave_rest(kids: Seq<Seq<u16>>, keys: Seq<u16>, i: int)
    requires
        kids.len() == keys.len() + 1,
        0 <= i <= keys.len(),
    ensures
        weave(kids.skip(i), keys.skip(i)) == kids[i] + rest_after(kids, keys, i),
{
    let k = kids.skip(i);
    let s = keys.skip(i);
    if i < keys.len() {
        lemma_weave_split(k, s, 0);
        assert(k.take(1).drop_last() =~= Seq::<Seq<u16>>::empty());
        assert(pairs(k.take(1).drop_last(), s.take(0)) =~= Seq::<u16>::empty());
        assert(k.take(1).last() == kids[i]);
        assert(weave(k.take(1), s.take(0)) =~= kids[i]);
        assert(k.skip(1) =~= kids.skip(i + 1));
        assert(s.skip(1) =~= keys.skip(i + 1));
        assert(s[0] == keys[i]);
        assert(weave(k, s) =~= kids[i] + rest_after(kids, keys, i));
    } else {
        assert(k.drop_last() =~= Seq::<Seq<u16>>::empty());
        assert(pairs(k.drop_last(), s) =~= Seq::<u16>::empty());
        assert(k.last() == kids[i]);
        assert(weave(k, s) =~= kids[i] + rest_after(kids, keys, i));
    }
}

} // verus!
