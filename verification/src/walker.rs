use vstd::prelude::*;

verus! {

/// Mathematical model of a walker: its current coordinates and the trail of
/// previously occupied coordinates, oldest first.
#[verifier::ext_equal]
pub ghost struct WalkerV {
    pub coords: (usize, usize),
    pub path: Seq<(usize, usize)>,
}

/// An exploring agent: its current grid coordinates and its trail. The trail
/// is append-only and never reordered. Walkers are value-like: forking one
/// copies its whole trail into a new walker with a new current coordinate.
pub struct Walker {
    pub coords: (usize, usize),
    pub path: Vec<(usize, usize)>,
}

impl View for Walker {
    type V = WalkerV;

    open spec fn view(&self) -> WalkerV {
        WalkerV { coords: self.coords, path: self.path@ }
    }
}

impl Walker {
    /// The single walker a simulation starts with: at the maze entrance (0, 0),
    /// with an empty trail.
    pub fn start() -> (r: Walker)
        ensures
            r@.coords == (0usize, 0usize),
            r@.path == Seq::<(usize, usize)>::empty(),
    {
        Walker { coords: (0, 0), path: Vec::new() }
    }

    /// A walker at `c` whose trail is this walker's trail extended by this
    /// walker's current coordinate. This is the one way walkers advance or
    /// fork: the child records where its parent stood.
    pub fn advanced(&self, c: (usize, usize)) -> (r: Walker)
        ensures
            r@.coords == c,
            r@.path == self@.path.push(self@.coords),
    {
        let mut path: Vec<(usize, usize)> = Vec::new();
        let mut i: usize = 0;
        while i < self.path.len()
            invariant
                i <= self.path@.len(),
                path@ == self.path@.take(i as int),
            decreases self.path@.len() - i,
        {
            path.push(self.path[i]);
            proof {
                assert(path@ =~= self.path@.take(i + 1));
            }
            i += 1;
        }
        proof {
            assert(path@ =~= self.path@);
        }
        path.push(self.coords);
        Walker { coords: c, path }
    }

    /// A copy of this walker: same coordinates, same trail.
    pub fn duplicate(&self) -> (r: Walker)
        ensures
            r@ == self@,
    {
        let mut path: Vec<(usize, usize)> = Vec::new();
        let mut i: usize = 0;
        while i < self.path.len()
            invariant
                i <= self.path@.len(),
                path@ == self.path@.take(i as int),
            decreases self.path@.len() - i,
        {
            path.push(self.path[i]);
            proof {
                assert(path@ =~= self.path@.take(i + 1));
            }
            i += 1;
        }
        proof {
            assert(path@ =~= self.path@);
        }
        let r = Walker { coords: self.coords, path };
        proof {
            assert(r@ =~= self@);
        }
        r
    }
}

} // verus!
