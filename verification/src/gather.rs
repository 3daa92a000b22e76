//! Reading the elements of a flat buffer through an index map.
use vstd::prelude::*;

verus! {

/// The elements of `data` at the positions that `map` names, in the order of `map`.
pub fn gather<T: Copy>(data: &[T], map: &[usize]) -> (out: Vec<T>)
    requires
        forall|i: int| 0 <= i < map.len() ==> #[trigger] map[i] < data.len(),
    ensures
        out.len() == map.len(),
        forall|i: int| 0 <= i < map.len() ==> #[trigger] out[i] == data[map[i] as int],
{
    let mut out: Vec<T> = Vec::with_capacity(map.len());
    let mut i: usize = 0;
    while i < map.len()
        invariant
            i <= map.len(),
            out.len() == i,
            forall|j: int| 0 <= j < map.len() ==> #[trigger] map[j] < data.len(),
            forall|j: int| 0 <= j < i ==> #[trigger] out[j] == data[map[j] as int],
        decreases map.len() - i,
    {
        let x = data[map[i]];
        out.push(x);
        i = i + 1;
    }
    out
}

/// The elements of `data` at the positions that `map` names, with `fill` where
/// `map` names none.
pub fn gather_or<T: Copy>(data: &[T], map: &[Option<usize>], fill: T) -> (out: Vec<T>)
    requires
        forall|i: int| 0 <= i < map.len() ==> (#[trigger] map[i] matches Some(j) ==> j < data.len()),
    ensures
        out.len() == map.len(),
        forall|i: int|
            0 <= i < map.len() ==> #[trigger] out[i] == match map[i] {
                Some(j) => data[j as int],
                None => fill,
            },
{
    let mut out: Vec<T> = Vec::with_capacity(map.len());
    let mut i: usize = 0;
    while i < map.len()
        invariant
            i <= map.len(),
            out.len() == i,
            forall|j: int| 0 <= j < map.len() ==> (#[trigger] map[j] matches Some(s) ==> s < data.len()),
            forall|j: int|
                0 <= j < i ==> #[trigger] out[j] == match map[j] {
                    Some(s) => data[s as int],
                    None => fill,
                },
        decreases map.len() - i,
    {
        let x = match map[i] {
            Some(s) => data[s],
            None => fill,
        };
        out.push(x);
        i = i + 1;
    }
    out
}

} // verus!
