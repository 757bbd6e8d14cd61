use vstd::prelude::*;
use crate::transport::ConfigError;

verus! {

/// A fixed grid of per-step velocities (0 is a silent step) and the note it plays.
#[derive(Debug)]
pub struct Pattern {
    steps: Vec<u8>,
    note: u8,
}

impl View for Pattern {
    type V = Seq<u8>;

    closed spec fn view(&self) -> Seq<u8> {
        self.steps@
    }
}

impl Pattern {
    #[verifier::type_invariant]
    spec fn inv(&self) -> bool {
        self.steps@.len() > 0
    }

    pub closed spec fn spec_note(&self) -> u8 {
        self.note
    }

    pub fn new(steps: Vec<u8>, note: u8) -> (r: Result<Pattern, ConfigError>)
        ensures
            steps@.len() == 0 <==> r == Err::<Pattern, ConfigError>(ConfigError::EmptyPattern),
            r is Ok <==> steps@.len() > 0,
            r is Ok ==> r->Ok_0@ == steps@ && r->Ok_0.spec_note() == note,
    {
        if steps.len() == 0 {
            Err(ConfigError::EmptyPattern)
        } else {
            Ok(Pattern { steps, note })
        }
    }

    pub fn steps_per_bar(&self) -> (r: usize)
        ensures
            r == self@.len(),
            r > 0,
    {
        proof {
            use_type_invariant(self);
        }
        self.steps.len()
    }

    pub fn note(&self) -> (r: u8)
        ensures
            r == self.spec_note(),
    {
        self.note
    }

    pub fn velocity(&self, step: usize) -> (r: u8)
        requires
            step < self@.len(),
        ensures
            r == self@[step as int],
    {
        self.steps[step]
    }

    /// The first step at or after `from` whose velocity is positive, with that
    /// velocity; `None` when every step from `from` to the end of the pattern is silent.
    pub fn next_triggered_step(&self, from: usize) -> (r: Option<(usize, u8)>)
        ensures
            match r {
                Some((s, v)) => from <= s < self@.len() && v == self@[s as int] && v > 0
                    && forall|k: int| from <= k < s ==> self@[k] == 0,
                None => forall|k: int| from <= k < self@.len() ==> self@[k] == 0,
            },
    {
        let mut n = from;
        while n < self.steps.len()
            invariant
                from <= n,
                forall|k: int| from <= k < n ==> self@[k] == 0,
            decreases self@.len() - n,
        {
            if self.steps[n] > 0 {
                return Some((n, self.steps[n]));
            }
            n += 1;
        }
        None
    }
}

} // verus!
