//! The bookkeeping of one light path: how many surface interactions it may
//! still take, and whether it ended by carrying light back to the camera.
//!
//! The caller intersects and scatters rays; after each attempt it reports
//! what the ray met, and the path says whether to go on. A path carries
//! light only if it reaches a surface that ends it before its budget of
//! bounces is spent.

use vstd::prelude::*;

verus! {

/// What a ray met on one step of its path.
#[derive(Debug, Clone, Copy, PartialEq, Eq, Structural)]
pub enum Encounter {
    /// No surface: the ray left the scene.
    Escape,
    /// A surface that ends the path, handing back its own light and no
    /// continuation ray.
    Terminal,
    /// A surface that sends a continuation ray on.
    Scatter,
}

/// The state of a path.
#[derive(Debug, Clone, Copy, PartialEq, Eq, Structural)]
pub enum Path {
    /// Still being traced, with this many interactions left; never zero.
    Tracing(usize),
    /// Ended at a terminal surface: the attenuation gathered along the path
    /// is its contribution.
    Lit,
    /// Ended without light: it escaped or ran out of bounces.
    Dark,
}

impl Path {
    /// The state is one that a path can be in: a path that is still traced
    /// has at least one interaction left.
    pub open spec fn wf(self) -> bool {
        self matches Path::Tracing(left) ==> left > 0
    }

    /// A path before its first step, allowed `max_bounces` interactions.
    pub open spec fn start(max_bounces: nat) -> Path {
        if max_bounces == 0 {
            Path::Dark
        } else {
            Path::Tracing(max_bounces as usize)
        }
    }

    /// The state after the ray met `met`. A path that has ended stays as it
    /// is.
    pub open spec fn after(self, met: Encounter) -> Path {
        match self {
            Path::Tracing(left) => match met {
                Encounter::Escape => Path::Dark,
                Encounter::Terminal => Path::Lit,
                Encounter::Scatter => if left > 1 {
                    Path::Tracing((left - 1) as usize)
                } else {
                    Path::Dark
                },
            },
            Path::Lit => Path::Lit,
            Path::Dark => Path::Dark,
        }
    }

    /// The state after the ray met each of `met` in turn.
    pub open spec fn after_all(self, met: Seq<Encounter>) -> Path
        decreases met.len(),
    {
        if met.len() == 0 {
            self
        } else {
            self.after(met.first()).after_all(met.drop_first())
        }
    }

    /// Interactions that the path may still take.
    pub open spec fn left(self) -> nat {
        match self {
            Path::Tracing(left) => left as nat,
            _ => 0,
        }
    }

    /// A path before its first step. With no bounce allowed it is dark at
    /// once.
    pub fn new(max_bounces: usize) -> (path: Path)
        ensures
            path == Path::start(max_bounces as nat),
            path.wf(),
    {
        if max_bounces == 0 {
            Path::Dark
        } else {
            Path::Tracing(max_bounces)
        }
    }

    /// Whether the path is still being traced.
    pub fn is_tracing(&self) -> (r: bool)
        ensures
            r == (*self is Tracing),
    {
        match self {
            Path::Tracing(_) => true,
            _ => false,
        }
    }

    /// Takes one step: the path ends lit at a terminal surface, dark when
    /// the ray escapes or when the scattering spent its last bounce, and
    /// goes on otherwise.
    pub fn step(self, met: Encounter) -> (path: Path)
        ensures
            path == self.after(met),
            self.wf() ==> path.wf(),
    {
        match self {
            Path::Tracing(left) => match met {
                Encounter::Escape => Path::Dark,
                Encounter::Terminal => Path::Lit,
                Encounter::Scatter => if left > 1 {
                    Path::Tracing(left - 1)
                } else {
                    Path::Dark
                },
            },
            Path::Lit => Path::Lit,
            Path::Dark => Path::Dark,
        }
    }
}

/// A path uses up its budget: each step of a path that is still traced
/// leaves it with fewer interactions, and after as many steps as it was
/// allowed bounces it has ended.
pub proof fn lemma_path_ends(max_bounces: nat, met: Seq<Encounter>)
    requires
        max_bounces <= usize::MAX,
        met.len() >= max_bounces,
    ensures
        !(Path::start(max_bounces).after_all(met) is Tracing),
{
    lemma_budget(Path::start(max_bounces), met);
}

/// After `met.len()` steps a path has at most `left() - met.len()`
/// interactions left, and it is well formed if it was.
pub proof fn lemma_budget(path: Path, met: Seq<Encounter>)
    requires
        path.wf(),
    ensures
        path.after_all(met).wf(),
        path.after_all(met).left() <= path.left(),
        path.after_all(met).left() + met.len() <= path.left() || path.after_all(met).left() == 0,
    decreases met.len(),
{
    if met.len() > 0 {
        lemma_budget(path.after(met.first()), met.drop_first());
    }
}

/// Light enters a path in one way only: the path ends lit exactly when the
/// ray met a terminal surface within its budget, having been scattered at
/// every step before.
pub proof fn lemma_lit_iff_terminal(max_bounces: nat, met: Seq<Encounter>)
    requires
        max_bounces <= usize::MAX,
    ensures
        Path::start(max_bounces).after_all(met) is Lit <==> exists|n: int|
            reaches_terminal(met, max_bounces, n),
{
    let start = Path::start(max_bounces);
    if max_bounces == 0 {
        lemma_ended_stays(start, met);
    }
    if start.after_all(met) is Lit {
        let n = lemma_lit_witness(start, met);
        assert(reaches_terminal(met, max_bounces, n));
    }
    if exists|n: int| reaches_terminal(met, max_bounces, n) {
        let n = choose|n: int| reaches_terminal(met, max_bounces, n);
        lemma_terminal_lights(start, met, n);
    }
}

/// The `n`-th encounter is terminal, lies within a budget of `budget`
/// interactions, and every encounter before it scattered the ray.
pub open spec fn reaches_terminal(met: Seq<Encounter>, budget: nat, n: int) -> bool {
    &&& 0 <= n < met.len()
    &&& n < budget
    &&& met[n] == Encounter::Terminal
    &&& forall|m: int| 0 <= m < n ==> met[m] == Encounter::Scatter
}

proof fn lemma_lit_witness(path: Path, met: Seq<Encounter>) -> (n: int)
    requires
        path.wf(),
        path is Tracing,
        path.after_all(met) is Lit,
    ensures
        reaches_terminal(met, path.left(), n),
    decreases met.len(),
{
    assert(met.len() > 0);
    let next = path.after(met.first());
    let rest = met.drop_first();
    if met.first() == Encounter::Terminal {
        0
    } else {
        if !(next is Tracing) {
            lemma_ended_stays(next, rest);
        }
        let n = lemma_lit_witness(next, rest);
        assert(forall|m: int| 1 <= m < n + 1 ==> met[m] == rest[m - 1]);
        n + 1
    }
}

proof fn lemma_terminal_lights(path: Path, met: Seq<Encounter>, n: int)
    requires
        path.wf(),
        reaches_terminal(met, path.left(), n),
    ensures
        path.after_all(met) is Lit,
    decreases met.len(),
{
    let next = path.after(met.first());
    let rest = met.drop_first();
    if n == 0 {
        lemma_ended_stays(next, rest);
    } else {
        assert(met[0] == Encounter::Scatter);
        assert(forall|m: int| 0 <= m < n - 1 ==> rest[m] == met[m + 1]);
        lemma_terminal_lights(next, rest, n - 1);
    }
}

/// A path that has ended keeps its state whatever is reported to it.
pub proof fn lemma_ended_stays(path: Path, met: Seq<Encounter>)
    requires
        !(path is Tracing),
    ensures
        path.after_all(met) == path,
    decreases met.len(),
{
    if met.len() > 0 {
        lemma_ended_stays(path.after(met.first()), met.drop_first());
    }
}

} // verus!
