//! The error boundary: children that hold errors are collected, and the
//! fallback is shown in their place while there is any.
use vstd::prelude::*;

verus! {

/// What a boundary shows.
#[derive(Debug)]
pub enum BoundaryView<E> {
    /// No child holds an error: the children are shown.
    Children,
    /// The errors, each with the position of the child that holds it.
    Fallback(Vec<(usize, E)>),
}

/// The errors among the first `k` children, with their positions.
pub open spec fn errors_upto<T, E>(children: Seq<Result<T, E>>, k: int) -> Seq<(usize, E)>
    decreases k,
{
    if k <= 0 {
        Seq::empty()
    } else {
        match children[k - 1] {
            Ok(_) => errors_upto(children, k - 1),
            Err(e) => errors_upto(children, k - 1).push(((k - 1) as usize, e)),
        }
    }
}

/// Collects the errors that the children hold, in their order.
pub fn collect_errors<T, E: Copy>(children: &Vec<Result<T, E>>) -> (r: Vec<(usize, E)>)
    ensures
        r@ == errors_upto(children@, children@.len() as int),
{
    let mut out: Vec<(usize, E)> = Vec::new();
    let mut i: usize = 0;
    while i < children.len()
        invariant
            i <= children@.len(),
            out@ == errors_upto(children@, i as int),
        decreases children@.len() - i,
    {
        match &children[i] {
            Ok(_) => {},
            Err(e) => {
                out.push((i, *e));
            },
        }
        i = i + 1;
    }
    out
}

/// The fallback with every collected error when some child holds one, and
/// the children otherwise.
pub fn render_boundary<T, E: Copy>(children: &Vec<Result<T, E>>) -> (r: BoundaryView<E>)
    ensures
        match r {
            BoundaryView::Children => errors_upto(children@, children@.len() as int).len() == 0,
            BoundaryView::Fallback(errors) => errors@.len() > 0 && errors@ == errors_upto(
                children@,
                children@.len() as int,
            ),
        },
{
    let errors = collect_errors(children);
    if errors.len() == 0 {
        BoundaryView::Children
    } else {
        BoundaryView::Fallback(errors)
    }
}

} // verus!
