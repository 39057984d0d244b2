//! Nearest-intersection selection over a set of scene objects.
//!
//! An intersection is reported as `Some((key, record))`, where `key` orders hits
//! by ray parameter (smaller is nearer) and `record` is whatever the caller keeps
//! about the hit. Objects are named by their index in the scene.
use vstd::prelude::*;

verus! {

/// The ordering key of an intersection result, `None` for a miss.
pub open spec fn key_of<H>(h: Option<(u64, H)>) -> Option<u64> {
    match h {
        Some((k, _)) => Some(k),
        None => None,
    }
}

/// `hit_object` reports the same key each time it is asked about the same object.
pub open spec fn consistent<H, F: Fn(usize) -> Option<(u64, H)>>(hit_object: F) -> bool {
    forall|o: usize, h1: Option<(u64, H)>, h2: Option<(u64, H)>|
        #![trigger hit_object.ensures((o,), h1), hit_object.ensures((o,), h2)]
        hit_object.ensures((o,), h1) && hit_object.ensures((o,), h2) ==> key_of(h1) == key_of(h2)
}

/// `r` is a nearest intersection among those that `hit_object` reports for the
/// objects of `s`, or `None` when it reports none of them hit.
pub open spec fn is_nearest<H, F: Fn(usize) -> Option<(u64, H)>>(
    hit_object: F,
    s: Set<usize>,
    r: Option<(u64, H)>,
) -> bool {
    match r {
        None => forall|o: usize, h: Option<(u64, H)>|
            s.contains(o) && #[trigger] hit_object.ensures((o,), h) ==> h is None,
        Some((k, _)) => {
            &&& exists|o: usize| s.contains(o) && #[trigger] hit_object.ensures((o,), r)
            &&& forall|o: usize, h: Option<(u64, H)>|
                s.contains(o) && #[trigger] hit_object.ensures((o,), h) && h is Some ==> k
                    <= h.unwrap().0
        },
    }
}

/// `hit_object` was asked about object `o` and answered.
pub open spec fn asked<H, F: Fn(usize) -> Option<(u64, H)>>(hit_object: F, o: usize) -> bool {
    exists|h: Option<(u64, H)>| #[trigger] hit_object.ensures((o,), h)
}

/// The nearer of two results; on equal keys the first one.
pub open spec fn nearer_spec<H>(a: Option<(u64, H)>, b: Option<(u64, H)>) -> Option<(u64, H)> {
    match (a, b) {
        (None, _) => b,
        (Some(_), None) => a,
        (Some((ka, _)), Some((kb, _))) => if ka <= kb {
            a
        } else {
            b
        },
    }
}

/// The nearer of two results; on equal keys the first one.
pub fn nearer<H>(a: Option<(u64, H)>, b: Option<(u64, H)>) -> (r: Option<(u64, H)>)
    ensures
        r == nearer_spec(a, b),
{
    match a {
        None => b,
        Some(x) => match b {
            None => Some(x),
            Some(y) => if x.0 <= y.0 {
                Some(x)
            } else {
                Some(y)
            },
        },
    }
}

/// The nearer of the nearest hits over two sets is the nearest hit over their union.
pub proof fn lemma_nearer_of_union<H, F: Fn(usize) -> Option<(u64, H)>>(
    hit_object: F,
    s1: Set<usize>,
    s2: Set<usize>,
    a: Option<(u64, H)>,
    b: Option<(u64, H)>,
)
    requires
        is_nearest(hit_object, s1, a),
        is_nearest(hit_object, s2, b),
    ensures
        is_nearest(hit_object, s1.union(s2), nearer_spec(a, b)),
{
    let u = s1.union(s2);
    let r = nearer_spec(a, b);
    if let Some((k, _)) = r {
        if r == a {
            let o = choose|o: usize| s1.contains(o) && #[trigger] hit_object.ensures((o,), a);
            assert(u.contains(o) && hit_object.ensures((o,), r));
        } else {
            let o = choose|o: usize| s2.contains(o) && #[trigger] hit_object.ensures((o,), b);
            assert(u.contains(o) && hit_object.ensures((o,), r));
        }
    }
}

/// What one consistent call reports for an object is the nearest hit over that object alone.
pub proof fn lemma_single<H, F: Fn(usize) -> Option<(u64, H)>>(
    hit_object: F,
    o: usize,
    h: Option<(u64, H)>,
)
    requires
        consistent(hit_object),
        hit_object.ensures((o,), h),
    ensures
        is_nearest(hit_object, set![o], h),
{
    assert(forall|h2: Option<(u64, H)>| #[trigger]
        hit_object.ensures((o,), h2) ==> key_of(h2) == key_of(h));
    if h is Some {
        assert(set![o].contains(o));
    }
}

/// Scans objects `0..count` in order and returns the nearest hit; on equal keys the
/// later object wins, as when each accepted hit becomes the new upper bound of the search.
pub fn nearest_in_list<H, F: Fn(usize) -> Option<(u64, H)>>(count: usize, hit_object: &F) -> (r:
    Option<(u64, H)>)
    requires
        forall|o: usize| o < count ==> #[trigger] hit_object.requires((o,)),
        consistent(*hit_object),
    ensures
        is_nearest(*hit_object, Set::new(|o: usize| o < count), r),
        forall|o: usize| o < count ==> #[trigger] asked(*hit_object, o),
{
    let mut best: Option<(u64, H)> = None;
    let mut i: usize = 0;
    while i < count
        invariant
            i <= count,
            forall|o: usize| o < count ==> #[trigger] hit_object.requires((o,)),
            consistent(*hit_object),
            is_nearest(*hit_object, Set::new(|o: usize| o < i), best),
            forall|o: usize| o < i ==> #[trigger] asked(*hit_object, o),
        decreases count - i,
    {
        let h = hit_object(i);
        proof {
            assert(hit_object.ensures((i,), h));
            lemma_single(*hit_object, i, h);
            lemma_nearer_of_union(*hit_object, set![i], Set::new(|o: usize| o < i), h, best);
            assert(set![i].union(Set::new(|o: usize| o < i)) =~= Set::new(|o: usize| o < i + 1));
        }
        best = nearer(h, best);
        i = i + 1;
    }
    best
}

/// Two nearest hits over the same objects, under a consistent intersection test,
/// lie at the same key: the nearest hit does not depend on how the objects were searched.
pub proof fn lemma_nearest_key_unique<H, F: Fn(usize) -> Option<(u64, H)>>(
    hit_object: F,
    s: Set<usize>,
    a: Option<(u64, H)>,
    b: Option<(u64, H)>,
)
    requires
        consistent(hit_object),
        is_nearest(hit_object, s, a),
        is_nearest(hit_object, s, b),
    ensures
        key_of(a) == key_of(b),
{
    if let Some((ka, _)) = a {
        let o = choose|o: usize| s.contains(o) && #[trigger] hit_object.ensures((o,), a);
        assert(hit_object.ensures((o,), a));
        if let Some((kb, _)) = b {
            let o2 = choose|o2: usize| s.contains(o2) && #[trigger] hit_object.ensures((o2,), b);
            assert(hit_object.ensures((o2,), b));
        }
    } else if let Some((kb, _)) = b {
        let o2 = choose|o2: usize| s.contains(o2) && #[trigger] hit_object.ensures((o2,), b);
        assert(hit_object.ensures((o2,), b));
    }
}

} // verus!
