//! The on-disk order of entries: ascending by path, ignoring case.

use vstd::prelude::*;
use vstd::string::*;
use vstd::utf8::encode_utf8;

verus! {

/// Byte-wise lexicographic order: `a` is not after `b`.
pub open spec fn lex_le(a: Seq<u8>, b: Seq<u8>) -> bool
    decreases a.len(),
{
    if a.len() == 0 {
        true
    } else if b.len() == 0 {
        false
    } else if a[0] != b[0] {
        a[0] < b[0]
    } else {
        lex_le(a.drop_first(), b.drop_first())
    }
}

/// `s` with index `x` inserted after the last index whose key is not after `x`'s.
pub open spec fn insert_idx(s: Seq<int>, x: int, keys: Seq<Seq<u8>>) -> Seq<int>
    decreases s.len(),
{
    if s.len() == 0 {
        seq![x]
    } else if lex_le(keys[s.last()], keys[x]) {
        s.push(x)
    } else {
        insert_idx(s.drop_last(), x, keys).push(s.last())
    }
}

/// The indices `0..n`, ordered by ascending key; equal keys keep their order.
pub open spec fn sorted_indices(keys: Seq<Seq<u8>>, n: nat) -> Seq<int>
    decreases n,
{
    if n == 0 {
        seq![]
    } else {
        insert_idx(sorted_indices(keys, (n - 1) as nat), n - 1, keys)
    }
}

/// Whether `a` is not after `b`.
pub fn lex_le_bytes(a: &Vec<u8>, b: &Vec<u8>) -> (r: bool)
    ensures
        r == lex_le(a@, b@),
{
    let mut i: usize = 0;
    assert(a@.subrange(0, a@.len() as int) =~= a@);
    assert(b@.subrange(0, b@.len() as int) =~= b@);
    while i < a.len() && i < b.len() && a[i] == b[i]
        invariant
            i <= a@.len(),
            i <= b@.len(),
            lex_le(a@, b@) == lex_le(a@.subrange(i as int, a@.len() as int), b@.subrange(i as int, b@.len() as int)),
        decreases a@.len() - i,
    {
        proof {
            let sa = a@.subrange(i as int, a@.len() as int);
            let sb = b@.subrange(i as int, b@.len() as int);
            assert(sa.drop_first() =~= a@.subrange(i + 1, a@.len() as int));
            assert(sb.drop_first() =~= b@.subrange(i + 1, b@.len() as int));
        }
        i = i + 1;
    }
    if i == a.len() {
        true
    } else if i == b.len() {
        false
    } else {
        a[i] < b[i]
    }
}

proof fn lemma_insert_idx_split(s: Seq<int>, x: int, keys: Seq<Seq<u8>>, j: int)
    requires
        0 < j <= s.len(),
        !lex_le(keys[s[j - 1]], keys[x]),
    ensures
        insert_idx(s.subrange(0, j), x, keys) + s.subrange(j, s.len() as int)
            == insert_idx(s.subrange(0, j - 1), x, keys) + s.subrange(j - 1, s.len() as int),
{
    let p = s.subrange(0, j);
    assert(p.drop_last() =~= s.subrange(0, j - 1));
    assert(p.last() == s[j - 1]);
    let q = insert_idx(s.subrange(0, j - 1), x, keys);
    assert(insert_idx(p, x, keys) == q.push(s[j - 1]));
    assert(q.push(s[j - 1]) + s.subrange(j, s.len() as int) =~= q + s.subrange(j - 1, s.len() as int));
}

/// The indices of `keys`, ordered by ascending key; equal keys keep their order.
pub fn sorted_order(keys: &Vec<Vec<u8>>) -> (r: Vec<usize>)
    ensures
        r@.map_values(|x: usize| x as int) == sorted_indices(keys@.map_values(|v: Vec<u8>| v@), keys@.len()),
{
    let ghost kv = keys@.map_values(|v: Vec<u8>| v@);
    let mut ord: Vec<usize> = Vec::new();
    let mut i: usize = 0;
    assert(ord@.map_values(|x: usize| x as int) =~= Seq::<int>::empty());
    while i < keys.len()
        invariant
            kv == keys@.map_values(|v: Vec<u8>| v@),
            i <= keys@.len(),
            ord@.len() == i,
            forall|k: int| 0 <= k < i ==> ord@[k] < i,
            ord@.map_values(|x: usize| x as int) == sorted_indices(kv, i as nat),
        decreases keys@.len() - i,
    {
        let ghost s = ord@.map_values(|x: usize| x as int);
        let mut j: usize = i;
        proof {
            assert(s.subrange(0, j as int) =~= s);
            assert(s.subrange(j as int, s.len() as int) =~= Seq::<int>::empty());
            assert(insert_idx(s, i as int, kv) =~= insert_idx(s.subrange(0, j as int), i as int, kv) + s.subrange(j as int, s.len() as int));
        }
        while j > 0 && !lex_le_bytes(&keys[ord[j - 1]], &keys[i])
            invariant
                kv == keys@.map_values(|v: Vec<u8>| v@),
                i < keys@.len(),
                ord@.len() == i,
                forall|k: int| 0 <= k < i ==> ord@[k] < i,
                s == ord@.map_values(|x: usize| x as int),
                j <= i,
                insert_idx(s, i as int, kv) == insert_idx(s.subrange(0, j as int), i as int, kv) + s.subrange(j as int, s.len() as int),
            decreases j,
        {
            proof {
                assert(kv[ord@[j - 1] as int] == keys@[ord@[j - 1] as int]@);
                assert(kv[i as int] == keys@[i as int]@);
                lemma_insert_idx_split(s, i as int, kv, j as int);
            }
            j = j - 1;
        }
        proof {
            if j > 0 {
                assert(kv[ord@[j - 1] as int] == keys@[ord@[j - 1] as int]@);
                assert(kv[i as int] == keys@[i as int]@);
                let p = s.subrange(0, j as int);
                assert(p.last() == s[j - 1]);
            }
        }
        ord.insert(j, i);
        proof {
            let t = ord@.map_values(|x: usize| x as int);
            assert(insert_idx(s.subrange(0, j as int), i as int, kv) == s.subrange(0, j as int).push(i as int));
            assert(t =~= s.subrange(0, j as int).push(i as int) + s.subrange(j as int, s.len() as int));
            assert(sorted_indices(kv, (i + 1) as nat) == insert_idx(sorted_indices(kv, i as nat), i as int, kv));
        }
        i = i + 1;
    }
    ord
}


/// The lowercase form of a text, as the standard library computes it.
pub uninterp spec fn lowercase_of(s: Seq<char>) -> Seq<char>;

/// Relies on `str::to_lowercase`: the lowercase form of a text depends on its
/// characters alone.
#[verifier::external_body]
fn to_lowercase(s: &str) -> (r: String)
    ensures
        r@ == lowercase_of(s@),
{
    s.to_lowercase()
}

/// The key that orders a joined path on disk: the UTF-8 bytes of its lowercase form.
pub open spec fn path_key(path: Seq<char>) -> Seq<u8> {
    encode_utf8(lowercase_of(path))
}

/// The key that orders the joined path `path` on disk.
pub fn path_sort_key(path: &str) -> (r: Vec<u8>)
    ensures
        r@ == path_key(path@),
{
    let lower = to_lowercase(path);
    lower.as_str().as_bytes_vec()
}

pub proof fn lemma_insert_idx_range(s: Seq<int>, x: int, keys: Seq<Seq<u8>>, n: int)
    requires
        forall|k: int| 0 <= k < s.len() ==> 0 <= #[trigger] s[k] < n,
        0 <= x < n,
    ensures
        insert_idx(s, x, keys).len() == s.len() + 1,
        forall|k: int| 0 <= k < s.len() + 1 ==> 0 <= #[trigger] insert_idx(s, x, keys)[k] < n,
    decreases s.len(),
{
    if s.len() > 0 && !lex_le(keys[s.last()], keys[x]) {
        lemma_insert_idx_range(s.drop_last(), x, keys, n);
    }
}

/// The order has one position for each index, and holds only indices below `n`.
pub proof fn lemma_sorted_indices_range(keys: Seq<Seq<u8>>, n: nat)
    ensures
        sorted_indices(keys, n).len() == n,
        forall|k: int| 0 <= k < n ==> 0 <= #[trigger] sorted_indices(keys, n)[k] < n,
    decreases n,
{
    if n > 0 {
        lemma_sorted_indices_range(keys, (n - 1) as nat);
        lemma_insert_idx_range(sorted_indices(keys, (n - 1) as nat), n - 1, keys, n as int);
    }
}


/// Whatever holds of every index of `s` and of `x` holds of every index of
/// `insert_idx(s, x, keys)`.
pub proof fn lemma_insert_idx_all(s: Seq<int>, x: int, keys: Seq<Seq<u8>>, pred: spec_fn(int) -> bool)
    requires
        forall|k: int| 0 <= k < s.len() ==> pred(#[trigger] s[k]),
        pred(x),
    ensures
        insert_idx(s, x, keys).len() == s.len() + 1,
        forall|k: int| 0 <= k < s.len() + 1 ==> pred(#[trigger] insert_idx(s, x, keys)[k]),
    decreases s.len(),
{
    if s.len() > 0 && !lex_le(keys[s.last()], keys[x]) {
        lemma_insert_idx_all(s.drop_last(), x, keys, pred);
    }
}

pub proof fn lemma_lex_le_total(a: Seq<u8>, b: Seq<u8>)
    ensures
        lex_le(a, b) || lex_le(b, a),
    decreases a.len(),
{
    if a.len() > 0 && b.len() > 0 && a[0] == b[0] {
        lemma_lex_le_total(a.drop_first(), b.drop_first());
    }
}

pub proof fn lemma_lex_le_trans(a: Seq<u8>, b: Seq<u8>, c: Seq<u8>)
    requires
        lex_le(a, b),
        lex_le(b, c),
    ensures
        lex_le(a, c),
    decreases a.len(),
{
    if a.len() > 0 && b.len() > 0 && c.len() > 0 && a[0] == b[0] && b[0] == c[0] {
        lemma_lex_le_trans(a.drop_first(), b.drop_first(), c.drop_first());
    }
}

/// Keys along `s` never decrease.
pub open spec fn keys_ascending(s: Seq<int>, keys: Seq<Seq<u8>>) -> bool {
    forall|i: int, j: int| 0 <= i < j < s.len() ==> lex_le(#[trigger] keys[s[i]], #[trigger] keys[s[j]])
}

proof fn lemma_insert_idx_sorted(s: Seq<int>, x: int, keys: Seq<Seq<u8>>)
    requires
        keys_ascending(s, keys),
    ensures
        keys_ascending(insert_idx(s, x, keys), keys),
    decreases s.len(),
{
    let r = insert_idx(s, x, keys);
    if s.len() == 0 {
    } else if lex_le(keys[s.last()], keys[x]) {
        assert forall|i: int, j: int| 0 <= i < j < r.len() implies lex_le(#[trigger] keys[r[i]], #[trigger] keys[r[j]]) by {
            if j == r.len() - 1 && i < s.len() - 1 {
                lemma_lex_le_trans(keys[s[i]], keys[s.last()], keys[x]);
            }
        }
    } else {
        let d = s.drop_last();
        let last = s.last();
        lemma_insert_idx_sorted(d, x, keys);
        lemma_lex_le_total(keys[last], keys[x]);
        let pred = |y: int| lex_le(keys[y], keys[last]);
        assert forall|k: int| 0 <= k < d.len() implies pred(#[trigger] d[k]) by {
            assert(s[k] == d[k]);
        }
        lemma_insert_idx_all(d, x, keys, pred);
        let q = insert_idx(d, x, keys);
        assert(r == q.push(last));
        assert forall|i: int, j: int| 0 <= i < j < r.len() implies lex_le(#[trigger] keys[r[i]], #[trigger] keys[r[j]]) by {
            if j == r.len() - 1 {
                assert(pred(q[i]));
            } else {
                assert(r[i] == q[i] && r[j] == q[j]);
            }
        }
    }
}

/// The order that `sorted_indices` gives never lets keys decrease.
pub proof fn lemma_sorted_indices_ascending(keys: Seq<Seq<u8>>, n: nat)
    ensures
        keys_ascending(sorted_indices(keys, n), keys),
    decreases n,
{
    if n > 0 {
        lemma_sorted_indices_ascending(keys, (n - 1) as nat);
        lemma_insert_idx_sorted(sorted_indices(keys, (n - 1) as nat), n - 1, keys);
    }
}

/// `sorted_indices(keys, n)` is a permutation of `0..n`.
pub proof fn lemma_sorted_indices_permutation(keys: Seq<Seq<u8>>, n: nat)
    ensures
        sorted_indices(keys, n).len() == n,
        sorted_indices(keys, n).no_duplicates(),
        forall|k: int| 0 <= k < n ==> 0 <= #[trigger] sorted_indices(keys, n)[k] < n,
    decreases n,
{
    lemma_sorted_indices_range(keys, n);
    if n > 0 {
        let m = (n - 1) as nat;
        let s = sorted_indices(keys, m);
        lemma_sorted_indices_permutation(keys, m);
        lemma_insert_idx_nodup(s, m as int, keys);
    }
}

proof fn lemma_insert_idx_nodup(s: Seq<int>, x: int, keys: Seq<Seq<u8>>)
    requires
        s.no_duplicates(),
        forall|k: int| 0 <= k < s.len() ==> #[trigger] s[k] != x,
    ensures
        insert_idx(s, x, keys).no_duplicates(),
    decreases s.len(),
{
    if s.len() > 0 && !lex_le(keys[s.last()], keys[x]) {
        let d = s.drop_last();
        let last = s.last();
        lemma_insert_idx_nodup(d, x, keys);
        let pred = |y: int| y != last;
        assert forall|k: int| 0 <= k < d.len() implies pred(#[trigger] d[k]) by {
            assert(s[k] == d[k]);
            assert(s[s.len() - 1] == last);
        }
        lemma_insert_idx_all(d, x, keys, pred);
        let q = insert_idx(d, x, keys);
        assert forall|i: int, j: int| 0 <= i < q.push(last).len() && 0 <= j < q.push(last).len() && i != j implies q.push(last)[i] != q.push(last)[j] by {
            if i < q.len() && j < q.len() {
            } else if i < q.len() {
                assert(pred(q[i]));
            } else if j < q.len() {
                assert(pred(q[j]));
            }
        }
    } else if s.len() > 0 {
        assert forall|i: int, j: int| 0 <= i < s.push(x).len() && 0 <= j < s.push(x).len() && i != j implies s.push(x)[i] != s.push(x)[j] by {
            if i < s.len() && j < s.len() {
            }
        }
    }
}


proof fn lemma_insert_idx_contains(s: Seq<int>, x: int, keys: Seq<Seq<u8>>)
    ensures
        insert_idx(s, x, keys).contains(x),
        forall|k: int| 0 <= k < s.len() ==> insert_idx(s, x, keys).contains(#[trigger] s[k]),
    decreases s.len(),
{
    let r = insert_idx(s, x, keys);
    if s.len() == 0 {
        assert(r[0] == x);
    } else if lex_le(keys[s.last()], keys[x]) {
        assert(r[s.len() as int] == x);
        assert forall|k: int| 0 <= k < s.len() implies r.contains(#[trigger] s[k]) by {
            assert(r[k] == s[k]);
        }
    } else {
        let d = s.drop_last();
        lemma_insert_idx_contains(d, x, keys);
        let q = insert_idx(d, x, keys);
        assert(r == q.push(s.last()));
        let jx = choose|j: int| 0 <= j < q.len() && q[j] == x;
        assert(r[jx] == x);
        assert forall|k: int| 0 <= k < s.len() implies r.contains(#[trigger] s[k]) by {
            if k == s.len() - 1 {
                assert(r[q.len() as int] == s[k]);
            } else {
                assert(d[k] == s[k]);
                assert(q.contains(d[k]));
                let j = choose|j: int| 0 <= j < q.len() && q[j] == d[k];
                assert(r[j] == s[k]);
            }
        }
    }
}

/// Every index below `n` has a position in `sorted_indices(keys, n)`.
pub proof fn lemma_sorted_indices_onto(keys: Seq<Seq<u8>>, n: nat)
    ensures
        forall|y: int| 0 <= y < n ==> sorted_indices(keys, n).contains(y),
    decreases n,
{
    if n > 0 {
        let m = (n - 1) as nat;
        let s = sorted_indices(keys, m);
        lemma_sorted_indices_onto(keys, m);
        lemma_sorted_indices_range(keys, m);
        lemma_insert_idx_contains(s, m as int, keys);
        assert forall|y: int| 0 <= y < n implies sorted_indices(keys, n).contains(y) by {
            if y < m {
                assert(s.contains(y));
                let k = choose|k: int| 0 <= k < s.len() && s[k] == y;
                assert(insert_idx(s, m as int, keys).contains(s[k]));
            }
        }
    }
}

} // verus!
