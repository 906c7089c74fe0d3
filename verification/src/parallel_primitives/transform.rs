use vstd::prelude::*;
use crate::parallel_primitives::elementwise::SEQUENTIAL_BLOCK;

verus! {

/// Whether `out` holds, position by position, a value that `mapper` can return
/// for the element of `src` at that position.
pub open spec fn mapped<T, R, F: Fn(&T) -> R>(src: Seq<T>, out: Seq<R>, mapper: F) -> bool {
    &&& out.len() == src.len()
    &&& forall|i: int| 0 <= i < src.len() ==> call_ensures(mapper, (&src[i],), #[trigger] out[i])
}

/// Whether `mapper` may be called on every element of `src`.
pub open spec fn mappable<T, R, F: Fn(&T) -> R>(src: Seq<T>, mapper: F) -> bool {
    forall|i: int| 0 <= i < src.len() ==> call_requires(mapper, (&#[trigger] src[i],))
}

/// Transforms a slice into a new vector, element by element, splitting the
/// work in halves that run as independent tasks.
pub fn par_map<T: Send + Sync, R: Send + Default + Clone>(
    arr: &[T],
    mapper: impl Fn(&T) -> R + Copy + Sync,
) -> (res: Vec<R>)
    requires
        mappable(arr@, mapper),
    ensures
        mapped(arr@, res@, mapper),
{
    let mut res: Vec<R> = vec![R::default(); arr.len()];
    par_map_helper(arr, res.as_mut_slice(), mapper);
    res
}

fn par_map_helper<T: Send + Sync, R: Send>(
    src_arr: &[T],
    result_arr: &mut [R],
    mapper: impl Fn(&T) -> R + Copy + Sync,
)
    requires
        old(result_arr)@.len() == src_arr@.len(),
        mappable(src_arr@, mapper),
    ensures
        mapped(src_arr@, final(result_arr)@, mapper),
    decreases src_arr@.len(),
{
    let n: usize = src_arr.len();
    if n <= SEQUENTIAL_BLOCK {
        let mut i: usize = 0;
        while i < n
            invariant
                i <= n,
                n == src_arr@.len(),
                result_arr@.len() == n,
                mappable(src_arr@, mapper),
                forall|j: int| 0 <= j < i ==> call_ensures(mapper, (&src_arr@[j],), #[trigger] result_arr@[j]),
            decreases n - i,
        {
            result_arr[i] = mapper(&src_arr[i]);
            i += 1;
        }
        return;
    }
    let m: usize = n / 2;
    let (src_left, src_right) = src_arr.split_at(m);
    let (result_left, result_right) = result_arr.split_at_mut(m);
    let by = &mapper;
    rayon::join(
        move || ensures mapped(src_left@, final(result_left)@, *by) {
            let out = result_left;
            par_map_helper(src_left, out, *by)
        },
        move || ensures mapped(src_right@, final(result_right)@, *by) {
            let out = result_right;
            par_map_helper(src_right, out, *by)
        },
    );
}

/// Where `mapper` can only return what the function `g` gives, a mapped
/// sequence is the source with `g` applied to each element, as one pass from
/// left to right would leave it.
pub proof fn lemma_mapped_is_map<T, R, F: Fn(&T) -> R>(
    src: Seq<T>,
    out: Seq<R>,
    mapper: F,
    g: spec_fn(T) -> R,
)
    requires
        mapped(src, out, mapper),
        forall|x: T, r: R| call_ensures(mapper, (&x,), r) ==> r == g(x),
    ensures
        out == src.map_values(g),
{
    assert(out =~= src.map_values(g));
}

} // verus!
