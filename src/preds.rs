use vstd::prelude::*;

verus! {

/// What a stopping rule sees after each pass.
#[derive(Clone, Copy, Debug, PartialEq, Eq, Structural)]
pub struct PredParams {
    pub num_nodes: usize,
    pub num_arcs: usize,
    /// The gain of the pass is `gain_delta / gain_total`: the increase of
    /// the objective over the objective after the pass.
    pub gain_delta: usize,
    pub gain_total: usize,
    /// The number of vertices whose label changed in the pass.
    pub modified: usize,
    /// The index of the pass, from zero.
    pub update: usize,
}

/// When to stop iterating for one γ: after `max_updates` passes, or once the
/// gain falls to `min_gain = (num, den)`, read `num / den`, or once at most
/// `min_modified` vertices change in a pass. The criteria that are set are
/// or-ed together.
#[derive(Clone, Copy, Debug)]
pub struct StopRule {
    pub max_updates: usize,
    pub min_gain: Option<(usize, usize)>,
    pub min_modified: Option<usize>,
}

/// Whether `rule` stops after a pass with parameters `p`.
pub open spec fn stops(rule: StopRule, p: PredParams) -> bool {
    ||| p.update + 1 >= rule.max_updates
    ||| match rule.min_gain {
        Some(t) => p.gain_total > 0 && p.gain_delta * t.1 <= t.0 * p.gain_total,
        None => false,
    }
    ||| match rule.min_modified {
        Some(m) => p.modified <= m,
        None => false,
    }
}

impl StopRule {
    /// Stops after `max_updates` passes, whatever else happens.
    pub fn max_updates(max_updates: usize) -> (r: StopRule)
        ensures
            r.max_updates == max_updates,
            r.min_gain.is_none(),
            r.min_modified.is_none(),
    {
        StopRule { max_updates, min_gain: None, min_modified: None }
    }

    /// Whether to stop after a pass with parameters `p`.
    pub fn eval(&self, p: &PredParams) -> (r: bool)
        ensures
            r == stops(*self, *p),
    {
        if p.update >= self.max_updates || self.max_updates - p.update <= 1 {
            return true;
        }
        let by_gain = match self.min_gain {
            Some(t) => {
                if p.gain_total == 0 {
                    false
                } else {
                    proof {
                        assert(usize::MAX <= 0xffff_ffff_ffff_ffff);
                        assert((p.gain_delta as int) * (t.1 as int) <= 0xffff_ffff_ffff_ffff * 0xffff_ffff_ffff_ffff) by (nonlinear_arith)
                            requires p.gain_delta <= 0xffff_ffff_ffff_ffff, t.1 <= 0xffff_ffff_ffff_ffff;
                        assert((t.0 as int) * (p.gain_total as int) <= 0xffff_ffff_ffff_ffff * 0xffff_ffff_ffff_ffff) by (nonlinear_arith)
                            requires p.gain_total <= 0xffff_ffff_ffff_ffff, t.0 <= 0xffff_ffff_ffff_ffff;
                    }
                    let lhs = (p.gain_delta as u128) * (t.1 as u128);
                    let rhs = (t.0 as u128) * (p.gain_total as u128);
                    lhs <= rhs
                }
            },
            None => false,
        };
        let by_modified = match self.min_modified {
            Some(m) => p.modified <= m,
            None => false,
        };
        by_gain || by_modified
    }
}

} // verus!
