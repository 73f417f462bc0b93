use vstd::prelude::*;

pub mod study;
pub mod double_list;
pub mod single_list;
pub mod minigrep;
pub mod timer;
pub mod penguins;

verus! {

/// `Some` of the value at position `index` of `s`, or `None` when `index` is out
/// of range.
pub open spec fn value_at<T>(s: Seq<T>, index: int) -> Option<T> {
    if 0 <= index < s.len() {
        Some(s[index])
    } else {
        None
    }
}

/// `b` is a clone of `a`: both are `None`, or both are `Some` and the value of
/// `b` is a clone of the value of `a`.
pub open spec fn cloned_option<T: Clone>(a: Option<T>, b: Option<T>) -> bool {
    match (a, b) {
        (Some(x), Some(y)) => cloned::<T>(x, y),
        (None, None) => true,
        _ => false,
    }
}

} // verus!
