//! Which files directory discovery collects, and the order it lists them in.

use vstd::prelude::*;

use crate::ingest::{document_kind, kind_of_extension};
use crate::text::lowercase;

verus! {

/// Whether discovery picks up a file with this extension: `pdf`, `epub`,
/// `md` or `markdown`, in any letter case.
pub fn is_supported_extension(extension: &str) -> (r: bool)
    ensures
        r == kind_of_extension(lowercase(extension@)) is Some,
{
    document_kind(Some(extension)).is_ok()
}

/// `a` comes no later than `b` in byte order (`[u8]`'s order).
pub open spec fn bytes_le(a: Seq<u8>, b: Seq<u8>) -> bool
    decreases a.len(),
{
    if a.len() == 0 {
        true
    } else if b.len() == 0 {
        false
    } else if a[0] != b[0] {
        a[0] < b[0]
    } else {
        bytes_le(a.drop_first(), b.drop_first())
    }
}

/// `a` comes no later than `b` in path order: component by component, the
/// first differing component deciding in byte order, and a path before the
/// paths that extend it. This is the order of `Path` on paths under one
/// directory, given as the bytes of their components.
pub open spec fn path_le(a: Seq<Seq<u8>>, b: Seq<Seq<u8>>) -> bool
    decreases a.len(),
{
    if a.len() == 0 {
        true
    } else if b.len() == 0 {
        false
    } else if a[0] != b[0] {
        bytes_le(a[0], b[0])
    } else {
        path_le(a.drop_first(), b.drop_first())
    }
}

pub proof fn lemma_bytes_le_order(a: Seq<u8>, b: Seq<u8>, c: Seq<u8>)
    ensures
        bytes_le(a, b) || bytes_le(b, a),
        bytes_le(a, b) && bytes_le(b, a) ==> a == b,
        bytes_le(a, b) && bytes_le(b, c) ==> bytes_le(a, c),
    decreases a.len(),
{
    if a.len() > 0 && b.len() > 0 && c.len() > 0 {
        lemma_bytes_le_order(a.drop_first(), b.drop_first(), c.drop_first());
        if a[0] == b[0] && bytes_le(a, b) && bytes_le(b, a) {
            assert(a =~= seq![a[0]] + a.drop_first());
            assert(b =~= seq![b[0]] + b.drop_first());
        }
    } else if a.len() > 0 && b.len() > 0 {
        lemma_bytes_le_order(a.drop_first(), b.drop_first(), c);
        if a[0] == b[0] && bytes_le(a, b) && bytes_le(b, a) {
            assert(a =~= seq![a[0]] + a.drop_first());
            assert(b =~= seq![b[0]] + b.drop_first());
        }
    } else {
        if a.len() == 0 && b.len() == 0 {
            assert(a =~= b);
        }
    }
}

pub proof fn lemma_path_le_order(a: Seq<Seq<u8>>, b: Seq<Seq<u8>>, c: Seq<Seq<u8>>)
    ensures
        path_le(a, b) || path_le(b, a),
        path_le(a, b) && path_le(b, a) ==> a == b,
        path_le(a, b) && path_le(b, c) ==> path_le(a, c),
    decreases a.len(),
{
    if a.len() > 0 && b.len() > 0 {
        let c1 = if c.len() > 0 {
            c.drop_first()
        } else {
            c
        };
        lemma_path_le_order(a.drop_first(), b.drop_first(), c1);
        if c.len() > 0 {
            lemma_bytes_le_order(a[0], b[0], c[0]);
            lemma_bytes_le_order(b[0], c[0], a[0]);
            lemma_bytes_le_order(a[0], c[0], b[0]);
        } else {
            lemma_bytes_le_order(a[0], b[0], a[0]);
        }
        if a[0] == b[0] && path_le(a, b) && path_le(b, a) {
            assert(a =~= seq![a[0]] + a.drop_first());
            assert(b =~= seq![b[0]] + b.drop_first());
        }
    } else {
        if a.len() == 0 && b.len() == 0 {
            assert(a =~= b);
        }
    }
}

fn bytes_equal(a: &Vec<u8>, b: &Vec<u8>) -> (r: bool)
    ensures
        r == (a@ == b@),
{
    if a.len() != b.len() {
        return false;
    }
    let mut i: usize = 0;
    while i < a.len()
        invariant
            i <= a.len(),
            a.len() == b.len(),
            a@.take(i as int) == b@.take(i as int),
        decreases a.len() - i,
    {
        if a[i] != b[i] {
            assert(a@[i as int] != b@[i as int]);
            return false;
        }
        assert(a@.take(i + 1) =~= a@.take(i as int).push(a@[i as int]));
        assert(b@.take(i + 1) =~= b@.take(i as int).push(b@[i as int]));
        i = i + 1;
    }
    assert(a@.take(a.len() as int) =~= a@);
    assert(b@.take(b.len() as int) =~= b@);
    true
}

fn bytes_le_exec(a: &Vec<u8>, b: &Vec<u8>) -> (r: bool)
    ensures
        r == bytes_le(a@, b@),
{
    let mut i: usize = 0;
    assert(a@.skip(0) =~= a@);
    assert(b@.skip(0) =~= b@);
    while i < a.len() && i < b.len() && a[i] == b[i]
        invariant
            i <= a.len(),
            i <= b.len(),
            bytes_le(a@, b@) == bytes_le(a@.skip(i as int), b@.skip(i as int)),
        decreases a.len() - i,
    {
        assert(a@.skip(i as int).drop_first() =~= a@.skip(i + 1));
        assert(b@.skip(i as int).drop_first() =~= b@.skip(i + 1));
        i = i + 1;
    }
    if i == a.len() {
        true
    } else if i == b.len() {
        false
    } else {
        a[i] < b[i]
    }
}

fn path_le_exec(a: &Vec<Vec<u8>>, b: &Vec<Vec<u8>>) -> (r: bool)
    ensures
        r == path_le(a.deep_view(), b.deep_view()),
{
    let ghost av = a.deep_view();
    let ghost bv = b.deep_view();
    let mut i: usize = 0;
    assert(av.skip(0) =~= av);
    assert(bv.skip(0) =~= bv);
    while i < a.len() && i < b.len()
        invariant
            i <= a.len(),
            i <= b.len(),
            av == a.deep_view(),
            bv == b.deep_view(),
            path_le(av, bv) == path_le(av.skip(i as int), bv.skip(i as int)),
        decreases a.len() - i,
    {
        assert(av[i as int] == a[i as int]@);
        assert(bv[i as int] == b[i as int]@);
        if !bytes_equal(&a[i], &b[i]) {
            return bytes_le_exec(&a[i], &b[i]);
        }
        assert(av.skip(i as int).drop_first() =~= av.skip(i + 1));
        assert(bv.skip(i as int).drop_first() =~= bv.skip(i + 1));
        i = i + 1;
    }
    i == a.len()
}

/// The keys listed in the given order are in path order.
pub open spec fn sorted_by_path(keys: Seq<Seq<Seq<u8>>>, order: Seq<usize>) -> bool {
    forall|i: int, j: int|
        0 <= i < j < order.len() ==> path_le(keys[#[trigger] order[i] as int], keys[#[trigger] order[j] as int])
}

/// The order in which discovery lists files: the positions of `keys` (each
/// path given as the bytes of its components) rearranged so that the paths
/// come in path order, equal ones keeping their relative order (a stable
/// sort). Every position occurs exactly once.
pub fn sorted_order(keys: &Vec<Vec<Vec<u8>>>) -> (order: Vec<usize>)
    ensures
        order.len() == keys.len(),
        forall|i: int| 0 <= i < order.len() ==> #[trigger] order[i] < keys.len(),
        forall|i: int, j: int| 0 <= i < j < order.len() ==> #[trigger] order[i] != #[trigger] order[j],
        sorted_by_path(keys.deep_view(), order@),
        forall|i: int, j: int|
            0 <= i < j < order.len() && keys.deep_view()[#[trigger] order[i] as int]
                == keys.deep_view()[#[trigger] order[j] as int] ==> order[i] < order[j],
{
    let ghost kv = keys.deep_view();
    let mut order: Vec<usize> = Vec::new();
    let mut k: usize = 0;
    while k < keys.len()
        invariant
            k <= keys.len(),
            kv == keys.deep_view(),
            order.len() == k,
            forall|i: int| 0 <= i < order.len() ==> #[trigger] order[i] < k,
            forall|i: int, j: int| 0 <= i < j < order.len() ==> #[trigger] order[i] != #[trigger] order[j],
            sorted_by_path(kv, order@),
            forall|i: int, j: int|
                0 <= i < j < order.len() && kv[#[trigger] order[i] as int] == kv[#[trigger] order[j] as int]
                    ==> order[i] < order[j],
        decreases keys.len() - k,
    {
        let mut p: usize = k;
        while p > 0 && !path_le_exec(&keys[order[p - 1]], &keys[k])
            invariant
                p <= k,
                k < keys.len(),
                kv == keys.deep_view(),
                order.len() == k,
                forall|i: int| 0 <= i < order.len() ==> #[trigger] order[i] < k,
                forall|i: int| p <= i < k ==> !path_le(kv[#[trigger] order[i] as int], kv[k as int]),
            decreases p,
        {
            assert(kv[order[p - 1] as int] == keys[order[p - 1] as int].deep_view());
            assert(kv[k as int] == keys[k as int].deep_view());
            p = p - 1;
        }
        proof {
            if p > 0 {
                assert(kv[order[p - 1] as int] == keys[order[p - 1] as int].deep_view());
                assert(kv[k as int] == keys[k as int].deep_view());
                assert(path_le(kv[order[p - 1] as int], kv[k as int]));
            }
        }
        let ghost old_order = order@;
        order.insert(p, k);
        proof {
            assert forall|i: int| 0 <= i < order.len() implies #[trigger] order[i] < k + 1 by {
                if i < p {
                    assert(order[i] == old_order[i]);
                } else if i > p {
                    assert(order[i] == old_order[i - 1]);
                }
            }
            assert forall|i: int, j: int| 0 <= i < j < order.len() implies #[trigger] order[i]
                != #[trigger] order[j] by {
                if i < p && j < p {
                    assert(order[i] == old_order[i] && order[j] == old_order[j]);
                } else if i < p && j == p {
                    assert(order[i] == old_order[i]);
                } else if i < p {
                    assert(order[i] == old_order[i] && order[j] == old_order[j - 1]);
                } else if i == p {
                    assert(order[j] == old_order[j - 1]);
                } else {
                    assert(order[i] == old_order[i - 1] && order[j] == old_order[j - 1]);
                }
            }
            assert forall|i: int, j: int|
                0 <= i < j < order.len() && kv[#[trigger] order[i] as int] == kv[#[trigger] order[j] as int]
                    implies order[i] < order[j] by {
                if i < p && j < p {
                    assert(order[i] == old_order[i] && order[j] == old_order[j]);
                } else if i < p && j == p {
                    assert(order[i] == old_order[i]);
                } else if i < p {
                    assert(order[i] == old_order[i] && order[j] == old_order[j - 1]);
                } else if i == p {
                    assert(order[j] == old_order[j - 1]);
                    let y = kv[old_order[j - 1] as int];
                    assert(!path_le(y, kv[k as int]));
                    lemma_path_le_order(y, y, y);
                } else {
                    assert(order[i] == old_order[i - 1] && order[j] == old_order[j - 1]);
                }
            }
            assert forall|i: int, j: int| 0 <= i < j < order.len() implies path_le(
                kv[#[trigger] order[i] as int],
                kv[#[trigger] order[j] as int],
            ) by {
                let x = kv[k as int];
                if i < p && j < p {
                    assert(order[i] == old_order[i] && order[j] == old_order[j]);
                } else if i < p && j == p {
                    assert(order[i] == old_order[i]);
                    if i < p - 1 {
                        assert(path_le(kv[old_order[i] as int], kv[old_order[p - 1] as int]));
                    }
                    lemma_path_le_order(kv[old_order[i] as int], kv[old_order[p - 1] as int], x);
                } else if i < p {
                    assert(order[i] == old_order[i] && order[j] == old_order[j - 1]);
                } else if i == p {
                    assert(order[j] == old_order[j - 1]);
                    assert(!path_le(kv[old_order[j - 1] as int], x));
                    lemma_path_le_order(x, kv[old_order[j - 1] as int], x);
                } else {
                    assert(order[i] == old_order[i - 1] && order[j] == old_order[j - 1]);
                }
            }
        }
        k = k + 1;
    }
    order
}

} // verus!
