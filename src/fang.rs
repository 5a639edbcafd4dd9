//! Fangs (middleware) registered against route prefixes, and the chain each
//! route gets: its fangs in registration order, then its handler.
use vstd::prelude::*;
use vstd::string::StringSliceAdditionalSpecFns;
use crate::bytes::copy_range;

verus! {

/// Whether `p` is a prefix of `s`.
pub open spec fn is_prefix(p: Seq<u8>, s: Seq<u8>) -> bool {
    p.len() <= s.len() && s.subrange(0, p.len() as int) == p
}

/// The fangs, in registration order, whose prefix is a prefix of `route`.
pub open spec fn fang_chain(fangs: Seq<(Seq<u8>, usize)>, route: Seq<u8>) -> Seq<usize>
    decreases fangs.len(),
{
    if fangs.len() == 0 {
        Seq::empty()
    } else if is_prefix(fangs.last().0, route) {
        fang_chain(fangs.drop_last(), route).push(fangs.last().1)
    } else {
        fang_chain(fangs.drop_last(), route)
    }
}

/// A compiled chain: the fangs to run, in order, then the handler.
pub struct Chain {
    pub fangs: Vec<usize>,
    pub handler: usize,
}

/// When a fang runs: before the handler (it may answer in its place) or
/// on the response.
#[derive(Clone, Copy, PartialEq, Eq, Structural, Debug)]
pub enum FangSide {
    Front,
    Back,
}

/// The fangs of `ids` that run on `side`, in chain order.
pub open spec fn of_side(ids: Seq<usize>, sides: Seq<FangSide>, side: FangSide) -> Seq<usize>
    decreases ids.len(),
{
    if ids.len() == 0 {
        Seq::empty()
    } else if sides[ids.last() as int] == side {
        of_side(ids.drop_last(), sides, side).push(ids.last())
    } else {
        of_side(ids.drop_last(), sides, side)
    }
}

impl Chain {
    /// The chain's front fangs and back fangs, each in chain order. Front
    /// fangs run in turn until one answers, then the handler runs if none
    /// did, then every back fang runs on the response.
    pub fn split(&self, sides: &Vec<FangSide>) -> (r: (Vec<usize>, Vec<usize>))
        requires
            forall|i: int| 0 <= i < self.fangs@.len() ==> (#[trigger] self.fangs@[i]) < sides@.len(),
        ensures
            r.0@ == of_side(self.fangs@, sides@, FangSide::Front),
            r.1@ == of_side(self.fangs@, sides@, FangSide::Back),
    {
        let mut fronts: Vec<usize> = Vec::new();
        let mut backs: Vec<usize> = Vec::new();
        let mut i: usize = 0;
        while i < self.fangs.len()
            invariant
                i <= self.fangs@.len(),
                forall|k: int| 0 <= k < self.fangs@.len() ==> (#[trigger] self.fangs@[k]) < sides@.len(),
                fronts@ == of_side(self.fangs@.subrange(0, i as int), sides@, FangSide::Front),
                backs@ == of_side(self.fangs@.subrange(0, i as int), sides@, FangSide::Back),
            decreases self.fangs@.len() - i,
        {
            let f = self.fangs[i];
            proof {
                assert(self.fangs@.subrange(0, i as int + 1).drop_last() =~= self.fangs@.subrange(0, i as int));
            }
            if sides[f] == FangSide::Front {
                fronts.push(f);
            } else {
                backs.push(f);
            }
            i = i + 1;
        }
        assert(self.fangs@.subrange(0, self.fangs@.len() as int) =~= self.fangs@);
        (fronts, backs)
    }
}

/// Where a request is in its chain: at a front fang, at the handler, at a
/// back fang, or through.
#[derive(Clone, Copy, PartialEq, Eq, Structural, Debug)]
pub enum ChainStage {
    /// The `i`-th front fang.
    Front(usize),
    Handler,
    /// The `i`-th back fang.
    Back(usize),
    Done,
}

/// The first back fang, or the end when there is none.
pub open spec fn first_back(n_backs: usize) -> ChainStage {
    if n_backs > 0 {
        ChainStage::Back(0)
    } else {
        ChainStage::Done
    }
}

/// Where a chain starts: at its first front fang, or at the handler.
pub open spec fn start_of(n_fronts: usize) -> ChainStage {
    if n_fronts > 0 {
        ChainStage::Front(0)
    } else {
        ChainStage::Handler
    }
}

/// The stage after `stage`: front fangs run in turn until one answers (then
/// the handler is skipped), the handler runs if none did, then every back
/// fang runs.
pub open spec fn next_stage(stage: ChainStage, answered: bool, n_fronts: usize, n_backs: usize) -> ChainStage {
    match stage {
        ChainStage::Front(i) => if answered {
            first_back(n_backs)
        } else if i + 1 < n_fronts {
            ChainStage::Front((i + 1) as usize)
        } else {
            ChainStage::Handler
        },
        ChainStage::Handler => first_back(n_backs),
        ChainStage::Back(i) => if i + 1 < n_backs {
            ChainStage::Back((i + 1) as usize)
        } else {
            ChainStage::Done
        },
        ChainStage::Done => ChainStage::Done,
    }
}

impl ChainStage {
    /// Where a chain with `n_fronts` front fangs starts.
    pub fn start(n_fronts: usize) -> (r: ChainStage)
        ensures
            r == start_of(n_fronts),
    {
        if n_fronts > 0 {
            ChainStage::Front(0)
        } else {
            ChainStage::Handler
        }
    }

    /// The next stage, given whether the front fang just run answered.
    pub fn next(self, answered: bool, n_fronts: usize, n_backs: usize) -> (r: ChainStage)
        ensures
            r == next_stage(self, answered, n_fronts, n_backs),
    {
        let first_back = if n_backs > 0 {
            ChainStage::Back(0)
        } else {
            ChainStage::Done
        };
        match self {
            ChainStage::Front(i) => if answered {
                first_back
            } else if i < n_fronts && n_fronts - i > 1 {
                ChainStage::Front(i + 1)
            } else {
                ChainStage::Handler
            },
            ChainStage::Handler => first_back,
            ChainStage::Back(i) => if i < n_backs && n_backs - i > 1 {
                ChainStage::Back(i + 1)
            } else {
                ChainStage::Done
            },
            ChainStage::Done => ChainStage::Done,
        }
    }
}

/// Fangs by the route prefix they were registered for.
pub struct Fangs {
    list: Vec<(Vec<u8>, usize)>,
}

impl Fangs {
    pub closed spec fn view(&self) -> Seq<(Seq<u8>, usize)> {
        self.list@.map_values(|f: (Vec<u8>, usize)| (f.0@, f.1))
    }

    pub fn new() -> (r: Fangs)
        ensures
            r.view() == Seq::<(Seq<u8>, usize)>::empty(),
    {
        let r = Fangs { list: Vec::new() };
        assert(r.view() =~= Seq::<(Seq<u8>, usize)>::empty());
        r
    }

    /// Registers fang `id` for every route that starts with `prefix`.
    pub fn add(&mut self, prefix: &str, id: usize)
        ensures
            final(self).view() == old(self).view().push((prefix.spec_bytes(), id)),
    {
        let b = prefix.as_bytes();
        let owned = copy_range(b, 0, b.len());
        assert(b@.subrange(0, b@.len() as int) =~= b@);
        self.list.push((owned, id));
        assert(self.view() =~= old(self).view().push((prefix.spec_bytes(), id)));
    }

    /// The chain for `route` ending in `handler`.
    pub fn chain(&self, route: &str, handler: usize) -> (r: Chain)
        ensures
            r.fangs@ == fang_chain(self.view(), route.spec_bytes()),
            r.handler == handler,
    {
        let s = route.as_bytes();
        let ghost v = self.view();
        let mut out: Vec<usize> = Vec::new();
        let mut i: usize = 0;
        while i < self.list.len()
            invariant
                i <= self.list@.len(),
                v == self.view(),
                s@ == route.spec_bytes(),
                out@ == fang_chain(v.subrange(0, i as int), s@),
            decreases self.list@.len() - i,
        {
            let p = self.list[i].0.as_slice();
            proof {
                assert(v.subrange(0, i as int + 1).drop_last() =~= v.subrange(0, i as int));
                assert(v[i as int] == (self.list@[i as int].0@, self.list@[i as int].1));
            }
            if p.len() <= s.len() && crate::bytes::range_eq(s, 0, p.len(), p) {
                out.push(self.list[i].1);
            }
            i = i + 1;
        }
        assert(v.subrange(0, v.len() as int) =~= v);
        Chain { fangs: out, handler }
    }
}

} // verus!
