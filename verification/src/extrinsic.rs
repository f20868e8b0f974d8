//! What one benchmark file holds: an extrinsic, the input variables it was
//! measured with, and one pair of timings per repeat.

use vstd::prelude::*;

verus! {

/// One measurement, as contracts see it.
pub struct Trial {
    /// The value of each input variable, in the order of their names.
    pub input_vars: Seq<u64>,
    pub extrinsic_time: u64,
    pub storage_root_time: u64,
}

/// One repeat of one extrinsic at one setting of its input variables.
#[derive(Debug)]
pub struct StepRepeatEntry {
    pub input_vars: Vec<u64>,
    pub extrinsic_time: u64,
    pub storage_root_time: u64,
}

impl View for StepRepeatEntry {
    type V = Trial;

    open spec fn view(&self) -> Trial {
        Trial {
            input_vars: self.input_vars@,
            extrinsic_time: self.extrinsic_time,
            storage_root_time: self.storage_root_time,
        }
    }
}

/// The measurements that `entries` stand for, in order.
pub open spec fn trials_of(entries: Seq<StepRepeatEntry>) -> Seq<Trial> {
    Seq::new(entries.len(), |i: int| entries[i]@)
}

/// The text of each of `names`, in order.
pub open spec fn texts_of(names: Seq<String>) -> Seq<Seq<char>> {
    Seq::new(names.len(), |i: int| names[i]@)
}

/// One benchmark file, as contracts see it.
pub struct Operation {
    pub pallet: Seq<char>,
    pub extrinsic: Seq<char>,
    pub steps: usize,
    pub repeats: usize,
    pub input_var_names: Seq<Seq<char>>,
    pub trials: Seq<Trial>,
}

impl Operation {
    /// Every measurement has one value for each input variable.
    pub open spec fn well_formed(self) -> bool {
        forall|i: int|
            0 <= i < self.trials.len() ==> (#[trigger] self.trials[i]).input_vars.len()
                == self.input_var_names.len()
    }

    /// The same file with `trials` as its measurements.
    pub open spec fn with_trials(self, trials: Seq<Trial>) -> Operation {
        Operation { trials, ..self }
    }
}

/// The measurements of one extrinsic, read from one benchmark file.
#[derive(Debug)]
pub struct ExtrinsicResult {
    pallet: String,
    extrinsic: String,
    steps: usize,
    repeats: usize,
    input_var_names: Vec<String>,
    steps_repeats: Vec<StepRepeatEntry>,
}

impl View for ExtrinsicResult {
    type V = Operation;

    closed spec fn view(&self) -> Operation {
        Operation {
            pallet: self.pallet@,
            extrinsic: self.extrinsic@,
            steps: self.steps,
            repeats: self.repeats,
            input_var_names: texts_of(self.input_var_names@),
            trials: trials_of(self.steps_repeats@),
        }
    }
}

impl ExtrinsicResult {
    /// Every measurement has one value for each input variable, and the
    /// fields of a row, one for each variable and two timings, can be
    /// counted.
    #[verifier::type_invariant]
    spec fn sound(&self) -> bool {
        &&& self@.well_formed()
        &&& self.input_var_names@.len() + 2 <= usize::MAX
    }

    /// A result with the given header and no measurements yet.
    pub(crate) fn from_header(
        pallet: String,
        extrinsic: String,
        steps: usize,
        repeats: usize,
        input_var_names: Vec<String>,
    ) -> (result: ExtrinsicResult)
        requires
            input_var_names@.len() + 2 <= usize::MAX,
        ensures
            result@ == (Operation {
                pallet: pallet@,
                extrinsic: extrinsic@,
                steps,
                repeats,
                input_var_names: texts_of(input_var_names@),
                trials: Seq::<Trial>::empty(),
            }),
    {
        let result = ExtrinsicResult {
            pallet,
            extrinsic,
            steps,
            repeats,
            input_var_names,
            steps_repeats: Vec::new(),
        };
        proof {
            assert(result@.trials =~= Seq::<Trial>::empty());
        }
        result
    }

    /// The same result with `trials` as its measurements.
    pub(crate) fn with_trials(self, trials: Vec<StepRepeatEntry>) -> (result: ExtrinsicResult)
        requires
            self@.with_trials(trials_of(trials@)).well_formed(),
        ensures
            result@ == self@.with_trials(trials_of(trials@)),
    {
        proof {
            use_type_invariant(&self);
        }
        ExtrinsicResult {
            pallet: self.pallet,
            extrinsic: self.extrinsic,
            steps: self.steps,
            repeats: self.repeats,
            input_var_names: self.input_var_names,
            steps_repeats: trials,
        }
    }

    /// The pallet that the extrinsic belongs to.
    pub fn pallet(&self) -> (name: &String)
        ensures
            name@ == self@.pallet,
    {
        &self.pallet
    }

    /// The name of the extrinsic.
    pub fn extrinsic(&self) -> (name: &String)
        ensures
            name@ == self@.extrinsic,
    {
        &self.extrinsic
    }

    /// How many steps the file says were taken.
    pub fn steps(&self) -> (steps: usize)
        ensures
            steps == self@.steps,
    {
        self.steps
    }

    /// How many repeats the file says were made.
    pub fn repeats(&self) -> (repeats: usize)
        ensures
            repeats == self@.repeats,
    {
        self.repeats
    }

    /// The names of the input variables, in the order of their columns.
    pub fn input_var_names(&self) -> (names: &Vec<String>)
        ensures
            texts_of(names@) == self@.input_var_names,
            names@.len() + 2 <= usize::MAX,
    {
        proof {
            use_type_invariant(self);
        }
        &self.input_var_names
    }

    /// The measurements, in the order of their lines. Each has one value for
    /// each input variable.
    pub fn steps_repeats(&self) -> (entries: &Vec<StepRepeatEntry>)
        ensures
            trials_of(entries@) == self@.trials,
            self@.well_formed(),
    {
        proof {
            use_type_invariant(self);
        }
        &self.steps_repeats
    }
}

} // verus!
