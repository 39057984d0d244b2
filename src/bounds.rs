//! The bounding box of a list of surfaces, from the boxes of its members.
//!
//! The box type and its union stay with the caller; this module decides when a
//! list has a box at all and in which order the members' boxes are joined.
use vstd::prelude::*;

verus! {

/// `x` is what joining the boxes of `s` one after another gives: the first box alone,
/// then `join(next, so_far)` for each further box.
pub open spec fn joins_to<T, F: Fn(T, T) -> T>(join: F, s: Seq<T>, x: T) -> bool
    decreases s.len(),
{
    if s.len() == 0 {
        false
    } else if s.len() == 1 {
        x == s[0]
    } else {
        exists|y: T| joins_to(join, s.drop_last(), y) && #[trigger] join.ensures((s.last(), y), x)
    }
}

/// The boxes of `s`, every one of them present.
pub open spec fn present<T>(s: Seq<Option<T>>) -> Seq<T> {
    s.map_values(|b: Option<T>| b.unwrap())
}

/// The box of a list whose members have the boxes `boxes` (`None` for an unbounded
/// member): `None` when the list is empty or some member is unbounded, else the
/// union of all boxes, joined in list order as `join(next, so_far)`.
pub fn list_bounding_box<T: Copy, F: Fn(T, T) -> T>(boxes: &Vec<Option<T>>, join: &F) -> (r:
    Option<T>)
    requires
        forall|a: T, b: T| #[trigger] join.requires((a, b)),
    ensures
        r is None <==> (boxes.len() == 0 || exists|i: int|
            0 <= i < boxes.len() && #[trigger] boxes[i] is None),
        r is Some ==> joins_to(*join, present(boxes@), r.unwrap()),
{
    let n = boxes.len();
    if n == 0 {
        return None;
    }
    let mut acc: Option<T> = None;
    let mut i: usize = 0;
    while i < n
        invariant
            n == boxes.len(),
            i <= n,
            forall|a: T, b: T| #[trigger] join.requires((a, b)),
            forall|k: int| 0 <= k < i ==> #[trigger] boxes[k] is Some,
            i == 0 <==> acc is None,
            acc is Some ==> joins_to(*join, present(boxes@.subrange(0, i as int)), acc.unwrap()),
        decreases n - i,
    {
        match boxes[i] {
            None => {
                assert(boxes[i as int] is None);
                return None;
            },
            Some(b) => {
                let ghost prev = present(boxes@.subrange(0, i as int));
                let ghost next = present(boxes@.subrange(0, i + 1));
                assert(next.drop_last() =~= prev);
                assert(next.last() == b);
                match acc {
                    None => {
                        assert(next.len() == 1);
                        acc = Some(b);
                    },
                    Some(a) => {
                        let joined = join(b, a);
                        assert(joins_to(*join, next, joined));
                        acc = Some(joined);
                    },
                }
            },
        }
        i = i + 1;
    }
    proof {
        assert(boxes@.subrange(0, n as int) =~= boxes@);
    }
    acc
}

} // verus!
