use vstd::prelude::*;

verus! {

/// The byte that separates path segments in an object key: the slash.
pub const SEPARATOR: u8 = 47;

/// `k` starts with `pre`.
pub open spec fn has_prefix(k: Seq<u8>, pre: Seq<u8>) -> bool {
    pre.len() <= k.len() && k.subrange(0, pre.len() as int) == pre
}

/// The prefix under which the entries of directory `d` live: `d` followed by
/// the separator. The root, written as the empty path, prefixes every key
/// directly.
pub open spec fn entry_prefix(d: Seq<u8>) -> Seq<u8> {
    if d.len() == 0 {
        d
    } else {
        d.push(SEPARATOR)
    }
}

/// `k` is an object key strictly below the prefix `pre`.
pub open spec fn is_entry_under(k: Seq<u8>, pre: Seq<u8>) -> bool {
    has_prefix(k, pre) && k.len() > pre.len()
}

/// The position of the first separator in `k` at or after `i`, or the end of
/// the key when no separator follows.
pub open spec fn seg_end(k: Seq<u8>, i: int) -> int
    decreases k.len() - i,
{
    if i < 0 || i >= k.len() {
        k.len() as int
    } else if k[i] == SEPARATOR {
        i
    } else {
        seg_end(k, i + 1)
    }
}

pub proof fn lemma_seg_end_at(k: Seq<u8>, i: int, j: int)
    requires
        0 <= i <= j <= k.len(),
        forall|m: int| i <= m < j ==> k[m] != SEPARATOR,
        j == k.len() || k[j] == SEPARATOR,
    ensures
        seg_end(k, i) == j,
    decreases j - i,
{
    if i < j {
        lemma_seg_end_at(k, i + 1, j);
    }
}

/// The immediate child of prefix `pre` along object key `k`: the key cut at
/// the end of its first segment below the prefix.
pub open spec fn child_of(k: Seq<u8>, pre: Seq<u8>) -> Seq<u8> {
    k.subrange(0, seg_end(k, pre.len() as int))
}

/// The full recursive listing of directory `d` over the backend's keys, in
/// key order: every key strictly below the directory.
pub open spec fn deep_listing(keys: Seq<Seq<u8>>, d: Seq<u8>) -> Seq<Seq<u8>>
    decreases keys.len(),
{
    if keys.len() == 0 {
        Seq::empty()
    } else {
        let rest = deep_listing(keys.drop_last(), d);
        if is_entry_under(keys.last(), entry_prefix(d)) {
            rest.push(keys.last())
        } else {
            rest
        }
    }
}

/// The one-level listing of directory `d` over the backend's keys: the
/// immediate children, each listed once, in order of first appearance.
pub open spec fn shallow_listing(keys: Seq<Seq<u8>>, d: Seq<u8>) -> Seq<Seq<u8>>
    decreases keys.len(),
{
    if keys.len() == 0 {
        Seq::empty()
    } else {
        let rest = shallow_listing(keys.drop_last(), d);
        let pre = entry_prefix(d);
        if is_entry_under(keys.last(), pre) && !rest.contains(child_of(keys.last(), pre)) {
            rest.push(child_of(keys.last(), pre))
        } else {
            rest
        }
    }
}

/// What `list_contents` owes the caller for a fixed backend key set.
pub open spec fn listing(keys: Seq<Seq<u8>>, d: Seq<u8>, deep: bool) -> Seq<Seq<u8>> {
    if deep {
        deep_listing(keys, d)
    } else {
        shallow_listing(keys, d)
    }
}

proof fn lemma_contains_split<T>(s: Seq<T>, x: T)
    requires
        s.len() > 0,
    ensures
        s.contains(x) <==> (s.drop_last().contains(x) || s.last() == x),
{
    if s.contains(x) {
        let i = choose|i: int| 0 <= i < s.len() && s[i] == x;
        if i < s.len() - 1 {
            assert(s.drop_last()[i] == x);
        }
    }
    if s.drop_last().contains(x) {
        let i = choose|i: int| 0 <= i < s.drop_last().len() && s.drop_last()[i] == x;
        assert(s[i] == x);
    }
    if s.last() == x {
        assert(s[s.len() - 1] == x);
    }
}

/// What the full recursive listing holds: exactly the keys strictly below the
/// directory, however the key set is ordered.
pub proof fn lemma_deep_listing_membership(keys: Seq<Seq<u8>>, d: Seq<u8>, x: Seq<u8>)
    ensures
        deep_listing(keys, d).contains(x) <==> (keys.contains(x) && is_entry_under(
            x,
            entry_prefix(d),
        )),
    decreases keys.len(),
{
    if keys.len() == 0 {
    } else {
        lemma_deep_listing_membership(keys.drop_last(), d, x);
        lemma_contains_split(keys, x);
        let rest = deep_listing(keys.drop_last(), d);
        if is_entry_under(keys.last(), entry_prefix(d)) {
            lemma_contains_split(rest.push(keys.last()), x);
            assert(rest.push(keys.last()).drop_last() =~= rest);
        }
    }
}

/// What the one-level listing holds: exactly the immediate children, one for
/// each first segment found below the directory.
pub proof fn lemma_shallow_listing_membership(keys: Seq<Seq<u8>>, d: Seq<u8>, x: Seq<u8>)
    ensures
        shallow_listing(keys, d).contains(x) <==> (exists|i: int|
            0 <= i < keys.len() && is_entry_under(#[trigger] keys[i], entry_prefix(d)) && x
                == child_of(keys[i], entry_prefix(d))),
    decreases keys.len(),
{
    let pre = entry_prefix(d);
    if keys.len() == 0 {
    } else {
        lemma_shallow_listing_membership(keys.drop_last(), d, x);
        let rest = shallow_listing(keys.drop_last(), d);
        let prior = keys.drop_last();
        assert(forall|i: int| 0 <= i < prior.len() ==> prior[i] == keys[i]);
        if shallow_listing(keys, d).contains(x) {
            if is_entry_under(keys.last(), pre) && !rest.contains(child_of(keys.last(), pre)) {
                lemma_contains_split(rest.push(child_of(keys.last(), pre)), x);
                assert(rest.push(child_of(keys.last(), pre)).drop_last() =~= rest);
                if x == child_of(keys.last(), pre) {
                    assert(is_entry_under(keys[keys.len() - 1], pre) && x == child_of(
                        keys[keys.len() - 1],
                        pre,
                    ));
                }
            }
        }
        if exists|i: int|
            0 <= i < keys.len() && is_entry_under(#[trigger] keys[i], pre) && x == child_of(
                keys[i],
                pre,
            ) {
            let i = choose|i: int|
                0 <= i < keys.len() && is_entry_under(#[trigger] keys[i], pre) && x == child_of(
                    keys[i],
                    pre,
                );
            if i < keys.len() - 1 {
                assert(is_entry_under(prior[i], pre) && x == child_of(prior[i], pre));
                assert(rest.contains(x));
            } else {
                assert(x == child_of(keys.last(), pre));
            }
            if is_entry_under(keys.last(), pre) && !rest.contains(child_of(keys.last(), pre)) {
                lemma_contains_split(rest.push(child_of(keys.last(), pre)), x);
                assert(rest.push(child_of(keys.last(), pre)).drop_last() =~= rest);
            }
        }
    }
}

/// The one-level listing names each immediate child exactly once, whatever
/// the key set holds.
pub proof fn lemma_shallow_listing_distinct(keys: Seq<Seq<u8>>, d: Seq<u8>)
    ensures
        forall|a: int, b: int|
            0 <= a < b < shallow_listing(keys, d).len() ==> shallow_listing(keys, d)[a]
                != shallow_listing(keys, d)[b],
    decreases keys.len(),
{
    if keys.len() > 0 {
        lemma_shallow_listing_distinct(keys.drop_last(), d);
        let rest = shallow_listing(keys.drop_last(), d);
        let pre = entry_prefix(d);
        if is_entry_under(keys.last(), pre) && !rest.contains(child_of(keys.last(), pre)) {
            let c = child_of(keys.last(), pre);
            let s = rest.push(c);
            assert forall|a: int, b: int| 0 <= a < b < s.len() implies s[a] != s[b] by {
                if b < s.len() - 1 {
                    assert(s[a] == rest[a]);
                    assert(s[b] == rest[b]);
                } else {
                    assert(s[b] == c);
                    assert(s[a] == rest[a]);
                    assert(rest.contains(rest[a]));
                }
            }
        }
    }
}

/// The byte sequences a vector of keys holds, in order.
pub open spec fn key_views(r: Seq<Vec<u8>>) -> Seq<Seq<u8>> {
    Seq::new(r.len(), |i: int| r[i]@)
}

/// Decides bytewise whether `k` starts with `pre`.
pub fn bytes_have_prefix(k: &Vec<u8>, pre: &Vec<u8>) -> (b: bool)
    ensures
        b == has_prefix(k@, pre@),
{
    if pre.len() > k.len() {
        return false;
    }
    let mut i: usize = 0;
    while i < pre.len()
        invariant
            i <= pre@.len() <= k@.len(),
            forall|j: int| 0 <= j < i ==> k@[j] == pre@[j],
        decreases pre@.len() - i,
    {
        if k[i] != pre[i] {
            assert(k@.subrange(0, pre@.len() as int)[i as int] != pre@[i as int]);
            return false;
        }
        i += 1;
    }
    assert(k@.subrange(0, pre@.len() as int) =~= pre@);
    true
}

/// Copies the first `j` bytes of `k`.
pub fn bytes_prefix(k: &Vec<u8>, j: usize) -> (out: Vec<u8>)
    requires
        j <= k@.len(),
    ensures
        out@ == k@.subrange(0, j as int),
{
    let mut out: Vec<u8> = Vec::new();
    assert(out@ =~= k@.subrange(0, 0));
    let mut i: usize = 0;
    while i < j
        invariant
            i <= j <= k@.len(),
            out@ == k@.subrange(0, i as int),
        decreases j - i,
    {
        out.push(k[i]);
        i += 1;
        assert(out@ =~= k@.subrange(0, i as int));
    }
    out
}

/// Builds the prefix under which the entries of `dir` live.
pub fn entry_prefix_of(dir: &Vec<u8>) -> (pre: Vec<u8>)
    ensures
        pre@ == entry_prefix(dir@),
{
    let mut pre = bytes_prefix(dir, dir.len());
    assert(pre@ =~= dir@);
    if pre.len() > 0 {
        pre.push(SEPARATOR);
    }
    pre
}

/// Finds the end of the first segment of `k` at or after `start`.
pub fn segment_end(k: &Vec<u8>, start: usize) -> (j: usize)
    requires
        start <= k@.len(),
    ensures
        j == seg_end(k@, start as int),
        start <= j <= k@.len(),
{
    let mut i: usize = start;
    while i < k.len()
        invariant
            start <= i <= k@.len(),
            forall|m: int| start <= m < i ==> k@[m] != SEPARATOR,
        decreases k@.len() - i,
    {
        if k[i] == SEPARATOR {
            proof {
                lemma_seg_end_at(k@, start as int, i as int);
            }
            return i;
        }
        i += 1;
    }
    proof {
        lemma_seg_end_at(k@, start as int, k@.len() as int);
    }
    i
}

/// Does the listing built so far already hold `x`?
fn holds_entry(r: &Vec<Vec<u8>>, x: &Vec<u8>) -> (b: bool)
    ensures
        b == key_views(r@).contains(x@),
{
    let mut i: usize = 0;
    while i < r.len()
        invariant
            i <= r@.len(),
            forall|j: int| 0 <= j < i ==> r@[j]@ != x@,
        decreases r@.len() - i,
    {
        if r[i] == *x {
            assert(r@[i as int]@ =~= x@);
            assert(key_views(r@)[i as int] == x@);
            return true;
        }
        assert(r@[i as int]@ != x@);
        i += 1;
    }
    assert forall|j: int| 0 <= j < key_views(r@).len() implies key_views(r@)[j] != x@ by {
        assert(r@[j]@ != x@);
    }
    false
}

/// Computes the listing of directory `dir` from the backend's full recursive
/// key set, in the deterministic order the keys were handed over. With `deep`
/// the result holds every key below the directory; without it, only the
/// immediate children, one level down, each once. A directory matching no key
/// yields the empty listing rather than an error.
pub fn list_from_keys(keys: &Vec<Vec<u8>>, dir: &Vec<u8>, deep: bool) -> (out: Vec<Vec<u8>>)
    ensures
        key_views(out@) == listing(key_views(keys@), dir@, deep),
{
    let pre = entry_prefix_of(dir);
    let mut out: Vec<Vec<u8>> = Vec::new();
    assert(key_views(out@) =~= listing(key_views(keys@).take(0), dir@, deep));
    let mut i: usize = 0;
    while i < keys.len()
        invariant
            i <= keys@.len(),
            pre@ == entry_prefix(dir@),
            key_views(out@) == listing(key_views(keys@).take(i as int), dir@, deep),
        decreases keys@.len() - i,
    {
        let ghost prev = key_views(keys@).take(i as int);
        let k = &keys[i];
        let is_under = bytes_have_prefix(k, &pre) && k.len() > pre.len();
        if is_under {
            if deep {
                let copy = bytes_prefix(k, k.len());
                assert(copy@ =~= k@);
                out.push(copy);
            } else {
                let j = segment_end(k, pre.len());
                let child = bytes_prefix(k, j);
                if !holds_entry(&out, &child) {
                    out.push(child);
                }
            }
        }
        i += 1;
        proof {
            let cur = key_views(keys@).take(i as int);
            assert(cur.drop_last() =~= prev);
            assert(cur.last() == keys@[i - 1]@);
            assert(key_views(out@) =~= listing(cur, dir@, deep));
        }
    }
    proof {
        assert(key_views(keys@).take(keys@.len() as int) =~= key_views(keys@));
    }
    out
}

} // verus!
