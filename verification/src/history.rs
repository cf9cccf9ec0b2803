//! What a sequence of changes makes of an index, and why caching the blocked
//! layout in between never shows.
use crate::index::{swap_removed, SearchResults, Stored, TurboQuantIndex};
use vstd::prelude::*;

verus! {

/// What an index holds.
#[verifier::ext_equal]
pub struct Contents {
    pub dim: Option<usize>,
    pub width: usize,
    pub vectors: Seq<Stored>,
}

/// What an index holds and has cached.
#[verifier::ext_equal]
pub struct State {
    pub contents: Contents,
    pub cache: Option<Seq<u8>>,
}

/// A call that changes an index. Searches change nothing and are no steps.
pub enum Step {
    /// Vectors are appended.
    Add(Seq<Stored>),
    /// Vectors are appended to an index that has or takes this dimensionality.
    AddWithDim(usize, Seq<Stored>),
    /// The vector in a slot is removed.
    SwapRemove(int),
    /// A blocked layout is offered for caching.
    Cache(Seq<u8>),
}

/// An index without vectors and with nothing cached.
pub open spec fn fresh(dim: Option<usize>, width: usize) -> State {
    State { contents: Contents { dim, width, vectors: Seq::empty() }, cache: None }
}

/// The state after a step. A change of the vectors drops the cached layout; a
/// layout is only cached where the dimensionality is committed and none is
/// cached yet.
pub open spec fn stepped(state: State, step: Step) -> State {
    let c = state.contents;
    match step {
        Step::Add(vectors) => State {
            contents: Contents { dim: c.dim, width: c.width, vectors: c.vectors + vectors },
            cache: None,
        },
        Step::AddWithDim(dim, vectors) => State {
            contents: Contents { dim: Some(dim), width: c.width, vectors: c.vectors + vectors },
            cache: None,
        },
        Step::SwapRemove(idx) => State {
            contents: Contents { dim: c.dim, width: c.width, vectors: swap_removed(c.vectors, idx) },
            cache: None,
        },
        Step::Cache(data) => if c.dim is None || state.cache is Some {
            state
        } else {
            State { contents: c, cache: Some(data) }
        },
    }
}

/// The state after a sequence of steps.
pub open spec fn replay(start: State, steps: Seq<Step>) -> State
    decreases steps.len(),
{
    if steps.len() == 0 {
        start
    } else {
        stepped(replay(start, steps.drop_last()), steps.last())
    }
}

/// The steps without those that only cache.
pub open spec fn changes(steps: Seq<Step>) -> Seq<Step>
    decreases steps.len(),
{
    if steps.len() == 0 {
        steps
    } else if steps.last() is Cache {
        changes(steps.drop_last())
    } else {
        changes(steps.drop_last()).push(steps.last())
    }
}

/// True iff whatever is cached is the layout of what the index holds, and nothing
/// is cached while the dimensionality is open.
pub open spec fn up_to_date(state: State, layout: spec_fn(Contents) -> Seq<u8>) -> bool {
    &&& state.cache is Some ==> state.cache->0 == layout(state.contents)
    &&& state.contents.dim is None ==> state.cache is None
}

/// True iff every layout offered for caching is the layout of what the index
/// holds at that point.
pub open spec fn caches_honestly(start: State, steps: Seq<Step>, layout: spec_fn(Contents) -> Seq<u8>) -> bool
    decreases steps.len(),
{
    steps.len() > 0 ==> {
        &&& caches_honestly(start, steps.drop_last(), layout)
        &&& steps.last() matches Step::Cache(data) ==> data == layout(replay(start, steps.drop_last()).contents)
    }
}

/// No cached layout is ever that of an older set of vectors, and caching changes
/// nothing else: after any steps the index holds what it would hold had nothing
/// been cached in between, what is cached is the layout of just that, and a
/// layout offered now leaves both with the same layout.
pub proof fn law_caching_never_shows(start: State, steps: Seq<Step>, layout: spec_fn(Contents) -> Seq<u8>)
    requires
        up_to_date(start, layout),
        caches_honestly(start, steps, layout),
    ensures
        ({
            let with = replay(start, steps);
            let without = replay(start, changes(steps));
            let data = layout(with.contents);
            &&& with.contents == without.contents
            &&& up_to_date(with, layout)
            &&& up_to_date(without, layout)
            &&& stepped(with, Step::Cache(data)) == stepped(without, Step::Cache(data))
        }),
    decreases steps.len(),
{
    if steps.len() > 0 {
        law_caching_never_shows(start, steps.drop_last(), layout);
        let step = steps.last();
        let c = changes(steps.drop_last());
        if !(step is Cache) {
            assert(c.push(step).drop_last() == c);
            assert(changes(steps) == c.push(step));
        }
    }
}

/// An index into which layouts were cached in between finds what one finds into
/// which none was: for all queries, numbers of results and masks the two give the
/// same number of queries and of results, the same scores and the same slots.
pub proof fn law_caching_keeps_results(
    start: State,
    steps: Seq<Step>,
    layout: spec_fn(Contents) -> Seq<u8>,
    a: TurboQuantIndex,
    b: TurboQuantIndex,
    queries_len: usize,
    rows: Seq<Vec<u32>>,
    k: usize,
    mask: Option<&[bool]>,
    res_a: SearchResults,
    res_b: SearchResults,
)
    requires
        up_to_date(start, layout),
        caches_honestly(start, steps, layout),
        a.state() == replay(start, steps),
        b.state() == replay(start, changes(steps)),
        a.found(queries_len, rows, k, mask, res_a),
        b.found(queries_len, rows, k, mask, res_b),
    ensures
        a.state().contents == b.state().contents,
        a.cache() is Some ==> a.cache()->0 == layout(a.state().contents),
        b.cache() is Some ==> b.cache()->0 == layout(a.state().contents),
        res_a.nq == res_b.nq,
        res_a.k == res_b.k,
        res_a.scores@ == res_b.scores@,
        res_a.indices@ == res_b.indices@,
{
    law_caching_never_shows(start, steps, layout);
    assert(a@ == a.state().contents.vectors && b@ == b.state().contents.vectors);
    assert(a.dimension() == a.state().contents.dim && b.dimension() == b.state().contents.dim);
}


/// Once both have a layout cached, the sums over it are the same too, with and
/// without layouts cached in between.
pub proof fn law_caching_keeps_sums(
    start: State,
    steps: Seq<Step>,
    layout: spec_fn(Contents) -> Seq<u8>,
    a: TurboQuantIndex,
    b: TurboQuantIndex,
    luts: Seq<Vec<u8>>,
    mask: Option<&[u64]>,
    rows_a: Option<Vec<Vec<u16>>>,
    rows_b: Option<Vec<Vec<u16>>>,
)
    requires
        up_to_date(start, layout),
        caches_honestly(start, steps, layout),
        ({
            let with = replay(start, steps);
            let without = replay(start, changes(steps));
            &&& a.state() == stepped(with, Step::Cache(layout(with.contents)))
            &&& b.state() == stepped(without, Step::Cache(layout(without.contents)))
        }),
        a.interleaved_scored(luts, mask, rows_a),
        b.interleaved_scored(luts, mask, rows_b),
    ensures
        a.state() == b.state(),
        rows_a is Some == a.dimension() is Some,
        rows_b is Some == a.dimension() is Some,
        a.dimension() is Some ==> rows_a->0@.len() == luts.len() && rows_b->0@.len() == luts.len(),
        a.dimension() is Some ==> forall|q: int|
            0 <= q < luts.len() ==> (#[trigger] rows_a->0@[q])@ == (#[trigger] rows_b->0@[q])@,
{
    law_caching_never_shows(start, steps, layout);
    assert(a@ == a.state().contents.vectors && b@ == b.state().contents.vectors);
    assert(a.dimension() == a.state().contents.dim && b.dimension() == b.state().contents.dim);
    assert(a.width() == a.state().contents.width && b.width() == b.state().contents.width);
    assert(a.cache() == a.state().cache && b.cache() == b.state().cache);
}
} // verus!
