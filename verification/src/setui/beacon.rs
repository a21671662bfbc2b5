use vstd::prelude::*;

verus! {

/// Helper for creating a beacon: it holds the messenger the beacon delivers
/// for and gathers the fuses to chain to the beacon's receptor.
pub struct BeaconBuilder<M, F> {
    messenger: M,
    chained_fuses: Vec<F>,
}

impl<M, F> BeaconBuilder<M, F> {
    /// The messenger the beacon will be associated with.
    pub closed spec fn messenger(&self) -> M {
        self.messenger
    }

    /// The fuses chained so far, in the order they were added.
    pub closed spec fn fuses(&self) -> Seq<F> {
        self.chained_fuses@
    }

    /// Creates a builder for the given messenger, with no chained fuse.
    pub fn new(messenger: M) -> (r: Self)
        ensures
            r.messenger() == messenger,
            r.fuses() == Seq::<F>::empty(),
    {
        Self { messenger: messenger, chained_fuses: Vec::new() }
    }

    /// Chains one more fuse.
    pub fn add_fuse(self, fuse: F) -> (r: Self)
        ensures
            r.messenger() == self.messenger(),
            r.fuses() == self.fuses().push(fuse),
    {
        let mut this = self;
        this.chained_fuses.push(fuse);
        this
    }

    /// Takes the builder apart into its messenger and its chained fuses.
    pub fn into_parts(self) -> (r: (M, Vec<F>))
        ensures
            r.0 == self.messenger(),
            r.1@ == self.fuses(),
    {
        (self.messenger, self.chained_fuses)
    }
}

/// Gathers fuses from other sources while it is active, and releases all of
/// them when it is triggered.
pub struct Sentinel<F> {
    active: bool,
    fuses: Vec<F>,
}

impl<F> Sentinel<F> {
    /// Whether the sentinel still accepts fuses.
    pub closed spec fn is_active(&self) -> bool {
        self.active
    }

    /// The fuses the sentinel holds, in the order they were added.
    pub closed spec fn fuses(&self) -> Seq<F> {
        self.fuses@
    }

    /// Creates an active sentinel that holds no fuse.
    pub fn new() -> (r: Self)
        ensures
            r.is_active(),
            r.fuses() == Seq::<F>::empty(),
    {
        Self { active: true, fuses: Vec::new() }
    }

    /// Adds a fuse if the sentinel is still active; otherwise drops it.
    pub fn add_fuse(&mut self, fuse: F)
        ensures
            final(self).is_active() == old(self).is_active(),
            final(self).fuses() == if old(self).is_active() {
                old(self).fuses().push(fuse)
            } else {
                old(self).fuses()
            },
    {
        if !self.active {
            return;
        }
        self.fuses.push(fuse);
    }

    /// Deactivates the sentinel and releases all the fuses it holds.
    pub fn trigger(&mut self)
        ensures
            !final(self).is_active(),
            final(self).fuses() == Seq::<F>::empty(),
    {
        self.active = false;
        self.fuses.clear();
    }

    /// Returns the number of fuses the sentinel holds.
    pub fn num_fuses(&self) -> (r: usize)
        ensures
            r == self.fuses().len(),
    {
        self.fuses.len()
    }
}

} // verus!
