use vstd::prelude::*;

verus! {

/// What the geometry and surface kernels report for one ray of a path.
#[derive(Clone, Copy, Debug, PartialEq, Eq, Structural)]
pub enum Outcome {
    /// The ray left the scene without hitting anything.
    Miss,
    /// The ray hit a surface that produced no further ray.
    Absorbed,
    /// The ray hit a surface that produced a further ray.
    Scattered,
}

/// The state of a light path. A path that is still being traced has a
/// positive number of rays left; the other three states are final and name
/// the colour that ends the path.
#[derive(Clone, Copy, Debug, PartialEq, Eq, Structural)]
pub enum Path {
    /// The next ray is to be traced; `depth` rays may still be traced.
    Tracing { depth: i32 },
    /// The budget ran out: the path contributes black.
    Black,
    /// The last ray missed all geometry: the path ends in the sky colour.
    Sky,
    /// The last surface absorbed the ray: the path ends in the surface's
    /// diffuse colour.
    Diffuse,
}

impl Path {
    /// A path that is being traced has rays left.
    pub open spec fn wf(self) -> bool {
        self matches Path::Tracing { depth } ==> depth > 0
    }

    /// The path has ended.
    pub open spec fn is_final(self) -> bool {
        !(self is Tracing)
    }

    /// The number of rays that may still be traced.
    pub open spec fn rays_left(self) -> nat {
        match self {
            Path::Tracing { depth } => if depth > 0 {
                depth as nat
            } else {
                0
            },
            _ => 0,
        }
    }

    /// The path with a budget of `depth` rays: over at once if the budget is
    /// zero or negative.
    pub open spec fn with_budget(depth: int) -> Path {
        if depth <= 0 {
            Path::Black
        } else {
            Path::Tracing { depth: depth as i32 }
        }
    }

    /// The state after one traced ray.
    pub open spec fn after(self, outcome: Outcome) -> Path {
        match self {
            Path::Tracing { depth } => match outcome {
                Outcome::Miss => Path::Sky,
                Outcome::Absorbed => Path::Diffuse,
                Outcome::Scattered => Path::with_budget(depth - 1),
            },
            _ => self,
        }
    }

    /// Starts a path with a budget of `max_depth` rays.
    pub fn start(max_depth: i32) -> (path: Path)
        ensures
            path == Path::with_budget(max_depth as int),
            path.wf(),
            path.rays_left() == (if max_depth > 0 {
                max_depth as int
            } else {
                0
            }),
    {
        if max_depth <= 0 {
            Path::Black
        } else {
            Path::Tracing { depth: max_depth }
        }
    }

    /// Takes the outcome of the ray just traced. A miss ends the path in the
    /// sky colour and an absorption in the surface's colour; a scattered ray
    /// is followed with a budget smaller by one. A path that has ended stays
    /// as it is.
    pub fn advance(self, outcome: Outcome) -> (next: Path)
        requires
            self.wf(),
        ensures
            next == self.after(outcome),
            next.wf(),
            self is Tracing ==> next.rays_left() < self.rays_left(),
    {
        match self {
            Path::Tracing { depth } => match outcome {
                Outcome::Miss => Path::Sky,
                Outcome::Absorbed => Path::Diffuse,
                Outcome::Scattered => Path::start(depth - 1),
            },
            _ => self,
        }
    }

    /// The state after the rays with the given outcomes, in this order.
    pub open spec fn after_all(self, outcomes: Seq<Outcome>) -> Path
        decreases outcomes.len(),
    {
        if outcomes.len() == 0 {
            self
        } else {
            self.after(outcomes[0]).after_all(outcomes.drop_first())
        }
    }

    /// A path has ended once as many rays were traced as its budget allowed,
    /// whatever their outcomes were.
    pub proof fn lemma_budget_bounds_path(self, outcomes: Seq<Outcome>)
        requires
            self.wf(),
            outcomes.len() >= self.rays_left(),
        ensures
            self.after_all(outcomes).is_final(),
        decreases outcomes.len(),
    {
        if outcomes.len() > 0 {
            self.after(outcomes[0]).lemma_budget_bounds_path(outcomes.drop_first());
        }
    }

    /// A path whose rays are all scattered loses one ray of its budget with
    /// each of them, and ends in black when the budget is spent.
    pub proof fn lemma_all_scattered(depth: int, outcomes: Seq<Outcome>)
        requires
            0 <= depth <= i32::MAX,
            forall|i: int| 0 <= i < outcomes.len() ==> outcomes[i] == Outcome::Scattered,
        ensures
            Path::with_budget(depth).after_all(outcomes) == Path::with_budget(
                (if outcomes.len() <= depth {
                    depth - outcomes.len()
                } else {
                    0
                }),
            ),
        decreases outcomes.len(),
    {
        if outcomes.len() > 0 {
            if depth > 0 {
                Path::lemma_all_scattered(depth - 1, outcomes.drop_first());
            } else {
                Path::lemma_all_scattered(0, outcomes.drop_first());
            }
        }
    }
}

} // verus!
