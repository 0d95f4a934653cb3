use vstd::prelude::*;
use vstd::relations::injective_on;
use vstd::set_lib::{lemma_int_range, lemma_len_subset, lemma_map_size, set_int_range};
use crate::rng::RandomNumberGenerator;

verus! {

impl RandomNumberGenerator {
    /// The generator at the start of attempt `j` of a sampler that makes
    /// `draws` draws per attempt.
    pub open spec fn attempt(self, draws: nat, j: nat) -> RandomNumberGenerator {
        self.after_draws(draws * j)
    }

    /// Attempt `j` at sampling the unit sphere is rejected.
    pub open spec fn sphere_rejects(self, j: nat) -> bool {
        !self.attempt(3, j).sphere_candidate().inside_unit_sphere()
    }

    /// Attempt `j` at sampling the unit disk is rejected.
    pub open spec fn disk_rejects(self, j: nat) -> bool {
        !self.attempt(2, j).disk_candidate().inside_unit_disk()
    }

    /// Making `a` draws and then `b` draws is making `a + b` draws.
    pub proof fn lemma_after_draws_add(self, a: nat, b: nat)
        ensures
            self.after_draws(a).after_draws(b) == self.after_draws(a + b),
        decreases a,
    {
        if a > 0 {
            self.advanced().advanced().lemma_after_draws_add((a - 1) as nat, b);
        }
    }

    /// Draws keep a generator well-formed and leave divisor and modulus as
    /// they are; after the first draw the state is below the modulus.
    pub proof fn lemma_after_draws_wf(self, n: nat)
        requires
            self.wf(),
        ensures
            self.after_draws(n).wf(),
            self.after_draws(n).modulo == self.modulo,
            self.after_draws(n).div == self.div,
            n > 0 ==> self.after_draws(n).state < self.modulo,
        decreases n,
    {
        if n > 0 {
            self.lemma_draw_in_unit_interval();
            self.advanced().lemma_draw_in_unit_interval();
            self.advanced().advanced().lemma_after_draws_wf((n - 1) as nat);
        }
    }

    /// Among the attempts `1, ..., modulo + 1` there are two that start from
    /// the same generator: they start from `modulo + 1` states below `modulo`.
    proof fn lemma_repeat(self, draws: nat) -> (r: (nat, nat))
        requires
            self.wf(),
            draws > 0,
        ensures
            1 <= r.0 < r.1 <= self.modulo + 1,
            self.attempt(draws, r.0) == self.attempt(draws, r.1),
    {
        let m = self.modulo as int;
        let indices = set_int_range(1, m + 2);
        let state_of = |j: int| self.attempt(draws, j as nat).state as int;
        lemma_int_range(1, m + 2);
        assert forall|j: int| indices.contains(j) implies 0 <= #[trigger] state_of(j) < m by {
            assert(draws * (j as nat) > 0) by (nonlinear_arith)
                requires
                    draws > 0,
                    j >= 1,
            ;
            self.lemma_after_draws_wf(draws * (j as nat));
        }
        if injective_on(state_of, indices) {
            let states = indices.map(state_of);
            lemma_map_size(indices, states, state_of);
            lemma_int_range(0, m);
            assert(states.subset_of(set_int_range(0, m))) by {
                assert forall|v: int| states.contains(v) implies set_int_range(0, m).contains(
                    v,
                ) by {
                    let j = choose|j: int| indices.contains(j) && v == state_of(j);
                    assert(0 <= state_of(j) < m);
                }
            }
            lemma_len_subset(states, set_int_range(0, m));
            assert(false);
        }
        let (i, k) = choose|i: int, k: int|
            indices.contains(i) && indices.contains(k) && #[trigger] state_of(i)
                == #[trigger] state_of(k) && i != k;
        self.lemma_after_draws_wf(draws * (i as nat));
        self.lemma_after_draws_wf(draws * (k as nat));
        if i < k {
            (i as nat, k as nat)
        } else {
            (k as nat, i as nat)
        }
    }

    /// Every attempt starts from a generator that one of the attempts
    /// `0, ..., modulo` started from.
    pub proof fn lemma_orbit_returns(self, draws: nat, j: nat) -> (r: nat)
        requires
            self.wf(),
            draws > 0,
        ensures
            r <= self.modulo,
            self.attempt(draws, r) == self.attempt(draws, j),
        decreases j,
    {
        if j <= self.modulo {
            j
        } else {
            let (i, k) = self.lemma_repeat(draws);
            let rest = (j - k) as nat;
            assert(draws * k + draws * rest == draws * j) by (nonlinear_arith)
                requires
                    k + rest == j,
            ;
            assert(draws * i + draws * rest == draws * (i + rest)) by (nonlinear_arith);
            self.lemma_after_draws_add(draws * k, draws * rest);
            self.lemma_after_draws_add(draws * i, draws * rest);
            self.lemma_orbit_returns(draws, i + rest)
        }
    }

    /// The sampler of the unit sphere finds nothing within a budget exactly
    /// when each attempt within the budget is rejected.
    pub proof fn lemma_sphere_search_none(self, budget: nat)
        ensures
            self.sphere_search(budget).found is None <==> forall|j: nat|
                j < budget ==> #[trigger] self.sphere_rejects(j),
        decreases budget,
    {
        if budget > 0 {
            let next = self.after_draws(3);
            next.lemma_sphere_search_none((budget - 1) as nat);
            assert(self.attempt(3, 0) == self);
            assert forall|j: nat| next.sphere_rejects(j) == self.sphere_rejects(j + 1) by {
                self.lemma_after_draws_add(3, 3 * j);
            }
            if self.sphere_search(budget).found is None {
                assert forall|j: nat| j < budget implies #[trigger] self.sphere_rejects(j) by {
                    if j > 0 {
                        assert(next.sphere_rejects((j - 1) as nat));
                    }
                }
            }
            if forall|j: nat| j < budget ==> #[trigger] self.sphere_rejects(j) {
                assert(self.sphere_rejects(0));
                assert forall|j: nat| j < budget - 1 implies #[trigger] next.sphere_rejects(
                    j,
                ) by {
                    assert(self.sphere_rejects(j + 1));
                }
            }
        }
    }

    /// The sampler of the unit disk finds nothing within a budget exactly
    /// when each attempt within the budget is rejected.
    pub proof fn lemma_disk_search_none(self, budget: nat)
        ensures
            self.disk_search(budget).found is None <==> forall|j: nat|
                j < budget ==> #[trigger] self.disk_rejects(j),
        decreases budget,
    {
        if budget > 0 {
            let next = self.after_draws(2);
            next.lemma_disk_search_none((budget - 1) as nat);
            assert(self.attempt(2, 0) == self);
            assert forall|j: nat| next.disk_rejects(j) == self.disk_rejects(j + 1) by {
                self.lemma_after_draws_add(2, 2 * j);
            }
            if self.disk_search(budget).found is None {
                assert forall|j: nat| j < budget implies #[trigger] self.disk_rejects(j) by {
                    if j > 0 {
                        assert(next.disk_rejects((j - 1) as nat));
                    }
                }
            }
            if forall|j: nat| j < budget ==> #[trigger] self.disk_rejects(j) {
                assert(self.disk_rejects(0));
                assert forall|j: nat| j < budget - 1 implies #[trigger] next.disk_rejects(j) by {
                    assert(self.disk_rejects(j + 1));
                }
            }
        }
    }

    /// Giving up is final for the unit sphere: if the sampler finds nothing
    /// within its `modulo + 1` attempts, it finds nothing within any number of
    /// attempts.
    pub proof fn lemma_sphere_search_exhaustive(self, budget: nat)
        requires
            self.wf(),
            self.sphere_search(self.attempts()).found is None,
        ensures
            self.sphere_search(budget).found is None,
    {
        self.lemma_sphere_search_none(self.attempts());
        self.lemma_sphere_search_none(budget);
        assert forall|j: nat| j < budget implies #[trigger] self.sphere_rejects(j) by {
            let r = self.lemma_orbit_returns(3, j);
            assert(self.sphere_rejects(r));
        }
    }

    /// Giving up is final for the unit disk: if the sampler finds nothing
    /// within its `modulo + 1` attempts, it finds nothing within any number of
    /// attempts.
    pub proof fn lemma_disk_search_exhaustive(self, budget: nat)
        requires
            self.wf(),
            self.disk_search(self.attempts()).found is None,
        ensures
            self.disk_search(budget).found is None,
    {
        self.lemma_disk_search_none(self.attempts());
        self.lemma_disk_search_none(budget);
        assert forall|j: nat| j < budget implies #[trigger] self.disk_rejects(j) by {
            let r = self.lemma_orbit_returns(2, j);
            assert(self.disk_rejects(r));
        }
    }
}

} // verus!
