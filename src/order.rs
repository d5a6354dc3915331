use vstd::prelude::*;
use crate::graph::in_row;

verus! {

/// `a` comes before `b`: larger key first, then smaller id first.
pub open spec fn key_before(keys: Seq<u64>, a: int, b: int) -> bool {
    keys[a] > keys[b] || (keys[a] == keys[b] && a < b)
}

/// Each id of `s` comes before every later one.
pub open spec fn by_key(keys: Seq<u64>, s: Seq<usize>) -> bool {
    forall|i: int, j: int| 0 <= i < j < s.len() ==> key_before(keys, #[trigger] s[i] as int, #[trigger] s[j] as int)
}

/// The ids `i` with `pick[i]` set, larger key first, ties by ascending id.
pub fn ids_by_key(keys: &Vec<u64>, pick: &Vec<bool>) -> (r: Vec<usize>)
    requires
        keys@.len() == pick@.len(),
    ensures
        by_key(keys@, r@),
        forall|k: int| 0 <= k < r@.len() ==> #[trigger] r@[k] < keys@.len() && pick@[r@[k] as int],
        forall|y: int| 0 <= y < keys@.len() && pick@[y] ==> #[trigger] in_row(r@, y),
{
    let n = pick.len();
    let mut res: Vec<usize> = Vec::new();
    let mut x: usize = 0;
    while x < n
        invariant
            n == pick@.len(),
            n == keys@.len(),
            x <= n,
            by_key(keys@, res@),
            forall|k: int| 0 <= k < res@.len() ==> #[trigger] res@[k] < x && pick@[res@[k] as int],
            forall|y: int| 0 <= y < x && pick@[y] ==> #[trigger] in_row(res@, y),
        decreases n - x,
    {
        if pick[x] {
            let sx = keys[x];
            let mut p: usize = 0;
            while p < res.len() && !(sx > keys[res[p]] || (sx == keys[res[p]] && x < res[p]))
                invariant
                    n == keys@.len(),
                    x < n,
                    sx == keys@[x as int],
                    p <= res@.len(),
                    forall|k: int| 0 <= k < res@.len() ==> #[trigger] res@[k] < x,
                    forall|k: int| 0 <= k < p ==> key_before(keys@, #[trigger] res@[k] as int, x as int),
                decreases res@.len() - p,
            {
                p += 1;
            }
            let ghost old_res = res@;
            res.insert(p, x);
            proof {
                assert forall|i: int, j: int| 0 <= i < j < res@.len() implies key_before(keys@, #[trigger] res@[i] as int, #[trigger] res@[j] as int) by {
                    if j < p {
                        assert(key_before(keys@, old_res[i] as int, old_res[j] as int));
                    } else if j == p {
                        assert(key_before(keys@, old_res[i] as int, x as int));
                    } else if i < p {
                        assert(key_before(keys@, old_res[i] as int, old_res[j - 1] as int));
                    } else if i == p {
                        if j - 1 > p {
                            assert(key_before(keys@, old_res[p as int] as int, old_res[j - 1] as int));
                        }
                        assert(key_before(keys@, x as int, old_res[p as int] as int));
                    } else {
                        assert(key_before(keys@, old_res[i - 1] as int, old_res[j - 1] as int));
                    }
                }
                assert forall|y: int| 0 <= y < x + 1 && pick@[y] implies #[trigger] in_row(res@, y) by {
                    if y == x {
                        assert(res@[p as int] == x);
                    } else {
                        assert(in_row(old_res, y));
                        let k = choose|k: int| 0 <= k < old_res.len() && old_res[k] == y;
                        if k < p {
                            assert(res@[k] == y);
                        } else {
                            assert(res@[k + 1] == y);
                        }
                    }
                }
            }
        }
        x += 1;
    }
    res
}

} // verus!
