use vstd::prelude::*;

use crate::rng::choose_from;

verus! {

/// When a run ends.
#[derive(Debug, Clone, Copy, PartialEq, Eq, Structural)]
pub enum Termination {
    /// After a fixed number of generations.
    FixedGenerations(usize),
}

/// Generations a run of `t` lasts.
pub open spec fn spec_generations(t: Termination) -> usize {
    match t {
        Termination::FixedGenerations(n) => n,
    }
}

/// Whether the run has ended before generation `generation` (counted from
/// zero).
pub fn is_finished(t: Termination, generation: usize) -> (r: bool)
    ensures
        r == (generation >= spec_generations(t)),
{
    match t {
        Termination::FixedGenerations(n) => generation >= n,
    }
}

/// A periodic action that runs every `every` generations (or never, for
/// `None`) is due at `generation`.
pub open spec fn spec_due(every: Option<usize>, generation: usize) -> bool {
    match every {
        Some(k) => generation % k == 0,
        None => false,
    }
}

/// Whether a periodic action that runs every `every` generations (or never,
/// for `None`) is due at `generation`.
pub fn is_due(every: Option<usize>, generation: usize) -> (r: bool)
    requires
        every matches Some(k) ==> k > 0,
    ensures
        r == spec_due(every, generation),
{
    match every {
        Some(k) => generation % k == 0,
        None => false,
    }
}

/// Settings of a training run: its name, when it ends, how often it prints
/// or reports, and where reports go.
#[derive(Debug, Clone, PartialEq, Eq)]
pub struct TrainerCfg {
    pub name: String,
    pub termination: Termination,
    /// How often to print basic generation info.
    pub print_gen: Option<usize>,
    /// How often to print summary info.
    pub print_summary: Option<usize>,
    /// How often to print samples.
    pub print_samples: Option<usize>,
    /// How often to print validation info.
    pub print_valid: Option<usize>,
    /// How often to report generation info.
    pub report_gen: Option<usize>,
    /// Where to write reports.
    pub report_path: Option<String>,
}

impl TrainerCfg {
    /// Settings for a run of 2000 generations that prints and reports nothing.
    pub fn new(name: &str) -> (r: TrainerCfg)
        ensures
            r.name@ == name@,
            r.termination == Termination::FixedGenerations(2000),
            r.print_gen is None,
            r.print_summary is None,
            r.print_samples is None,
            r.print_valid is None,
            r.report_gen is None,
            r.report_path is None,
    {
        TrainerCfg {
            name: name.to_owned(),
            termination: Termination::FixedGenerations(2000),
            print_gen: None,
            print_summary: None,
            print_samples: None,
            print_valid: None,
            report_gen: None,
            report_path: None,
        }
    }

    pub fn set_termination(self, termination: Termination) -> (r: TrainerCfg)
        ensures
            r == (TrainerCfg { termination, ..self }),
    {
        TrainerCfg { termination, ..self }
    }

    pub fn set_print_gen(self, print_gen: usize) -> (r: TrainerCfg)
        ensures
            r == (TrainerCfg { print_gen: Some(print_gen), ..self }),
    {
        TrainerCfg { print_gen: Some(print_gen), ..self }
    }

    pub fn set_print_summary(self, print_summary: usize) -> (r: TrainerCfg)
        ensures
            r == (TrainerCfg { print_summary: Some(print_summary), ..self }),
    {
        TrainerCfg { print_summary: Some(print_summary), ..self }
    }

    pub fn set_print_samples(self, print_samples: usize) -> (r: TrainerCfg)
        ensures
            r == (TrainerCfg { print_samples: Some(print_samples), ..self }),
    {
        TrainerCfg { print_samples: Some(print_samples), ..self }
    }

    pub fn set_print_valid(self, print_valid: usize) -> (r: TrainerCfg)
        ensures
            r == (TrainerCfg { print_valid: Some(print_valid), ..self }),
    {
        TrainerCfg { print_valid: Some(print_valid), ..self }
    }

    pub fn set_report_gen(self, report_gen: usize) -> (r: TrainerCfg)
        ensures
            r == (TrainerCfg { report_gen: Some(report_gen), ..self }),
    {
        TrainerCfg { report_gen: Some(report_gen), ..self }
    }

    /// Sets where reports go.
    pub fn set_report_path(self, report_path: &str) -> (r: TrainerCfg)
        ensures
            r.report_path matches Some(p) && p@ == report_path@,
            r.name == self.name,
            r.termination == self.termination,
            r.print_gen == self.print_gen,
            r.print_summary == self.print_summary,
            r.print_samples == self.print_samples,
            r.print_valid == self.print_valid,
            r.report_gen == self.report_gen,
    {
        TrainerCfg { report_path: Some(report_path.to_owned()), ..self }
    }
}

/// Training, validation and test inputs for each generation.
pub trait DataSampler<D> {
    fn train(&self, generation: usize) -> Vec<D>;

    fn valid(&self, generation: usize) -> Vec<D>;

    fn test(&self, generation: usize) -> Vec<D>;
}

/// A sampler for fitness functions that take no input: one unit input each.
#[derive(Debug, Clone, Copy, PartialEq, Eq, Structural)]
pub struct EmptyDataSampler {}

impl DataSampler<()> for EmptyDataSampler {
    fn train(&self, generation: usize) -> Vec<()> {
        vec![()]
    }

    fn valid(&self, generation: usize) -> Vec<()> {
        vec![()]
    }

    fn test(&self, generation: usize) -> Vec<()> {
        vec![()]
    }
}

/// Wraps a sampler and hands out a random subset of its training data for
/// each generation, drawn from a generator seeded with the generation so that
/// a generation always gets the same subset.
#[derive(Debug, Clone, Copy, PartialEq, Eq)]
pub struct BatchDataSampler<S> {
    sampler: S,
    batch_size: usize,
}

impl<S> BatchDataSampler<S> {
    pub closed spec fn spec_batch_size(&self) -> usize {
        self.batch_size
    }

    pub closed spec fn spec_sampler(&self) -> S {
        self.sampler
    }

    pub fn new(sampler: S, batch_size: usize) -> (r: BatchDataSampler<S>)
        ensures
            r.spec_sampler() == sampler,
            r.spec_batch_size() == batch_size,
    {
        BatchDataSampler { sampler, batch_size }
    }
}

impl<D: Clone, S: DataSampler<D>> DataSampler<D> for BatchDataSampler<S> {
    fn train(&self, generation: usize) -> Vec<D> {
        let v = self.sampler.train(generation);
        choose_from(v, generation as u64, self.batch_size)
    }

    fn valid(&self, generation: usize) -> Vec<D> {
        self.sampler.valid(generation)
    }

    fn test(&self, generation: usize) -> Vec<D> {
        self.sampler.test(generation)
    }
}

/// How often a harness prints, and when its runs end.
#[derive(Debug, Clone, Copy, PartialEq, Eq, Structural)]
pub struct HarnessCfg {
    termination: Termination,
    print_gen: Option<usize>,
    print_summary: Option<usize>,
}

impl HarnessCfg {
    pub closed spec fn spec_termination(&self) -> Termination {
        self.termination
    }

    pub closed spec fn spec_print_gen(&self) -> Option<usize> {
        self.print_gen
    }

    pub closed spec fn spec_print_summary(&self) -> Option<usize> {
        self.print_summary
    }

    /// Runs of 2000 generations that print nothing.
    pub fn new() -> (r: HarnessCfg)
        ensures
            r.spec_termination() == Termination::FixedGenerations(2000),
            r.spec_print_gen() is None,
            r.spec_print_summary() is None,
    {
        HarnessCfg { termination: Termination::FixedGenerations(2000), print_gen: None, print_summary: None }
    }

    pub fn termination(&self) -> (r: Termination)
        ensures
            r == self.spec_termination(),
    {
        self.termination
    }

    pub fn set_termination(self, termination: Termination) -> (r: HarnessCfg)
        ensures
            r.spec_termination() == termination,
            r.spec_print_gen() == self.spec_print_gen(),
            r.spec_print_summary() == self.spec_print_summary(),
    {
        HarnessCfg { termination, ..self }
    }

    /// How often to print basic generation info.
    pub fn print_gen(&self) -> (r: Option<usize>)
        ensures
            r == self.spec_print_gen(),
    {
        self.print_gen
    }

    pub fn set_print_gen(self, print_gen: usize) -> (r: HarnessCfg)
        ensures
            r.spec_termination() == self.spec_termination(),
            r.spec_print_gen() == Some(print_gen),
            r.spec_print_summary() == self.spec_print_summary(),
    {
        HarnessCfg { print_gen: Some(print_gen), ..self }
    }

    /// How often to print summary info.
    pub fn print_summary(&self) -> (r: Option<usize>)
        ensures
            r == self.spec_print_summary(),
    {
        self.print_summary
    }

    pub fn set_print_summary(self, print_summary: usize) -> (r: HarnessCfg)
        ensures
            r.spec_termination() == self.spec_termination(),
            r.spec_print_gen() == self.spec_print_gen(),
            r.spec_print_summary() == Some(print_summary),
    {
        HarnessCfg { print_summary: Some(print_summary), ..self }
    }
}

impl Default for HarnessCfg {
    fn default() -> (r: HarnessCfg)
        ensures
            r.spec_termination() == Termination::FixedGenerations(2000),
            r.spec_print_gen() is None,
            r.spec_print_summary() is None,
    {
        HarnessCfg::new()
    }
}

/// Runs evolution with the given settings and prints some info; the loop
/// itself is driven by the caller, which asks the harness what is due.
#[derive(Debug, Clone, Copy, PartialEq, Eq, Structural)]
pub struct Harness {
    cfg: HarnessCfg,
}

/// What a harness does at one generation.
#[derive(Debug, Clone, Copy, PartialEq, Eq, Structural)]
pub struct HarnessStep {
    /// The run is over: no more generations.
    pub finished: bool,
    /// Print the best fitness of this generation.
    pub print_gen: bool,
    /// Print a summary and a sample of this generation.
    pub print_summary: bool,
}

impl Harness {
    pub closed spec fn spec_cfg(&self) -> HarnessCfg {
        self.cfg
    }

    pub fn new(cfg: HarnessCfg) -> (r: Harness)
        ensures
            r.spec_cfg() == cfg,
    {
        Harness { cfg }
    }

    /// The harness's settings.
    pub fn cfg(&self) -> (r: HarnessCfg)
        ensures
            r == self.spec_cfg(),
    {
        self.cfg
    }

    /// What is due at `generation`, counted from zero.
    pub fn step(&self, generation: usize) -> (r: HarnessStep)
        requires
            self.spec_cfg().spec_print_gen() matches Some(k) ==> k > 0,
            self.spec_cfg().spec_print_summary() matches Some(k) ==> k > 0,
        ensures
            r.finished == (generation >= spec_generations(self.spec_cfg().spec_termination())),
            r.print_gen == (!r.finished && spec_due(self.spec_cfg().spec_print_gen(), generation)),
            r.print_summary == (!r.finished && spec_due(
                self.spec_cfg().spec_print_summary(),
                generation,
            )),
    {
        let finished = is_finished(self.cfg.termination(), generation);
        HarnessStep {
            finished,
            print_gen: !finished && is_due(self.cfg.print_gen(), generation),
            print_summary: !finished && is_due(self.cfg.print_summary(), generation),
        }
    }
}

} // verus!
