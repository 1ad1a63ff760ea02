//! Spectra of samples.

use vstd::prelude::*;
use vstd::std_specs::convert::FromSpecImpl;

use crate::hz::Hz;

verus! {

/// How many samples a spectrum is made of.
#[derive(Debug, Clone, Copy, PartialEq, Eq, PartialOrd, Ord, Hash, Structural)]
pub enum FftSize {
    Samples1024,
    Samples2048,
    Samples4096,
}

impl FftSize {
    /// The number of samples.
    pub open spec fn count(self) -> usize {
        match self {
            FftSize::Samples1024 => 1024,
            FftSize::Samples2048 => 2048,
            FftSize::Samples4096 => 4096,
        }
    }

    /// The least size that `value` samples fit into, or the largest one.
    pub open spec fn fitting(value: int) -> Self {
        if value <= 1024 {
            FftSize::Samples1024
        } else if value <= 2048 {
            FftSize::Samples2048
        } else {
            FftSize::Samples4096
        }
    }

    /// The number of samples.
    pub fn samples(self) -> (count: usize)
        ensures
            count == self.count(),
    {
        match self {
            FftSize::Samples1024 => 1024,
            FftSize::Samples2048 => 2048,
            FftSize::Samples4096 => 4096,
        }
    }
}

impl Default for FftSize {
    fn default() -> (size: Self)
        ensures
            size == FftSize::Samples2048,
    {
        FftSize::Samples2048
    }
}

impl From<usize> for FftSize {
    fn from(value: usize) -> (size: Self) {
        if value <= 1024 {
            FftSize::Samples1024
        } else if value <= 2048 {
            FftSize::Samples2048
        } else {
            FftSize::Samples4096
        }
    }
}

impl FromSpecImpl<usize> for FftSize {
    open spec fn obeys_from_spec() -> bool {
        true
    }

    open spec fn from_spec(value: usize) -> Self {
        FftSize::fitting(value as int)
    }
}

/// What samples are weighted with before a spectrum is made of them.
#[derive(Debug, Clone, Copy, PartialEq, Eq, PartialOrd, Ord, Hash, Structural)]
pub enum PreprocessWindow {
    NoWindow,
}

impl Default for PreprocessWindow {
    fn default() -> (window: Self)
        ensures
            window == PreprocessWindow::NoWindow,
    {
        PreprocessWindow::NoWindow
    }
}

impl PreprocessWindow {
    /// Sample `idx` of `count`, weighted.
    pub open spec fn weighted<T>(self, input: T, idx: int, count: int) -> T {
        match self {
            PreprocessWindow::NoWindow => input,
        }
    }

    /// Weights sample `idx` of `count`.
    pub fn process<T>(self, input: T, idx: usize, count: usize) -> (output: T)
        ensures
            output == self.weighted(input, idx as int, count as int),
    {
        match self {
            PreprocessWindow::NoWindow => input,
        }
    }
}

/// The direction of a transform.
#[derive(Debug, Clone, Copy, PartialEq, Eq, Hash, Structural)]
pub enum FftDirection {
    Forward,
    Inverse,
}

/// The choices that a transform is built from.
#[derive(Debug, Clone, Copy, PartialEq, Eq, Structural)]
pub struct Builder {
    pub size: FftSize,
    pub direction: FftDirection,
    pub window: PreprocessWindow,
}

impl Builder {
    /// The same choices, with another size.
    pub fn with_size(self, size: FftSize) -> (builder: Self)
        ensures
            builder == (Builder { size, ..self }),
    {
        Builder { size, ..self }
    }

    /// The same choices, with another direction.
    pub fn with_direction(self, direction: FftDirection) -> (builder: Self)
        ensures
            builder == (Builder { direction, ..self }),
    {
        Builder { direction, ..self }
    }

    /// The same choices, with another window.
    pub fn with_window(self, window: PreprocessWindow) -> (builder: Self)
        ensures
            builder == (Builder { window, ..self }),
    {
        Builder { window, ..self }
    }

    /// A transform that has no result yet. Its buffer is filled with `zero`.
    pub fn build<V: Copy>(&self, zero: V) -> (fft: Fft<V>)
        ensures
            fft.spectrum() == Seq::new(self.size.count() as nat, |i: int| zero),
            !fft.has_result(),
            fft.weighting() == self.window,
            fft.orientation() == self.direction,
    {
        let size: usize = self.size.samples();
        let mut buffer: Vec<V> = Vec::with_capacity(size);
        while buffer.len() < size
            invariant
                buffer@.len() <= size,
                forall|i: int| 0 <= i < buffer@.len() ==> buffer@[i] == zero,
            decreases size - buffer@.len(),
        {
            buffer.push(zero);
        }
        assert(buffer@ =~= Seq::new(size as nat, |i: int| zero));
        Fft { has_result: false, buffer, direction: self.direction, window: self.window }
    }
}

/// The part of a transform that does not depend on the numbers that it works with: which samples
/// it takes, and what its result is made of. `V` is a value of the spectrum.
pub struct Fft<V> {
    has_result: bool,
    buffer: Vec<V>,
    direction: FftDirection,
    window: PreprocessWindow,
}

/// One value of a spectrum.
pub struct FftResult<V> {
    /// The value
    pub value: V,
    /// Which of the values it is
    pub index: usize,
    /// How many values there are
    pub max: usize,
}

impl<V> FftResult<V> {
    /// The frequency that the value is for, given the rate of the samples.
    pub fn frequency(&self, sample_rate: Hz) -> (frequency: Hz)
        requires
            crate::hz::holds(sample_rate@ * (self.index as isize)),
            crate::hz::divides(
                (sample_rate@ * (self.index as isize)) as isize,
                self.max as isize,
            ),
        ensures
            frequency@ == crate::hz::quotient(
                crate::hz::quotient(
                    sample_rate@ * (self.index as isize),
                    (self.max as isize) as int,
                ),
                2,
            ),
    {
        proof {
            let product = sample_rate@ * (self.index as isize);
            crate::hz::law_quotient_is_held(product as isize, self.max as isize);
            let ratio = crate::hz::quotient(product, (self.max as isize) as int) as isize;
            crate::hz::law_quotient_is_held(ratio, 2);
        }
        sample_rate * self.index / self.max / 2i32
    }
}

impl<V> Fft<V> {
    /// The values that the transform left, or those that it started with.
    pub closed spec fn spectrum(&self) -> Seq<V> {
        self.buffer@
    }

    /// Whether there is a result.
    pub closed spec fn has_result(&self) -> bool {
        self.has_result
    }

    /// The window in use.
    pub closed spec fn weighting(&self) -> PreprocessWindow {
        self.window
    }

    /// The direction of the transform.
    pub closed spec fn orientation(&self) -> FftDirection {
        self.direction
    }

    /// The first choices of a builder: 2048 samples, forward, without a window.
    pub fn builder() -> (builder: Builder)
        ensures
            builder == (Builder {
                size: FftSize::Samples2048,
                direction: FftDirection::Forward,
                window: PreprocessWindow::NoWindow,
            }),
    {
        Builder {
            size: FftSize::default(),
            direction: FftDirection::Forward,
            window: PreprocessWindow::default(),
        }
    }

    /// Uses another window from now on.
    pub fn set_window(&mut self, window: PreprocessWindow)
        ensures
            final(self).weighting() == window,
            final(self).spectrum() == old(self).spectrum(),
            final(self).has_result() == old(self).has_result(),
            final(self).orientation() == old(self).orientation(),
    {
        self.window = window;
    }

    /// The window in use.
    pub fn window(&self) -> (window: PreprocessWindow)
        ensures
            window == self.weighting(),
    {
        self.window
    }

    /// The direction of the transform.
    pub fn direction(&self) -> (direction: FftDirection)
        ensures
            direction == self.orientation(),
    {
        self.direction
    }

    /// How many samples a result is made of.
    pub fn size(&self) -> (size: FftSize)
        ensures
            size == FftSize::fitting(self.spectrum().len() as int),
    {
        FftSize::from(self.buffer.len())
    }

    /// How many values a result has.
    pub fn output_length(&self) -> (count: usize)
        ensures
            count == self.spectrum().len() / 2,
    {
        self.buffer.len() / 2
    }

    /// Whether `results` are the values of the first half of the spectrum, each of them scaled
    /// for their number.
    pub open spec fn is_result<Sc: Fn(V, usize) -> V>(
        &self,
        scale: Sc,
        results: Seq<FftResult<V>>,
    ) -> bool {
        let max = (self.spectrum().len() / 2) as usize;
        &&& results.len() == max
        &&& forall|i: int|
            0 <= i < max ==> {
                &&& (#[trigger] results[i]).index == i
                &&& results[i].max == max
                &&& call_ensures(scale, (self.spectrum()[i], max), results[i].value)
            }
    }

    /// The result, if there is one: the first half of the spectrum, each value scaled for the
    /// number of values.
    pub fn get_result<Sc: Fn(V, usize) -> V>(&self, scale: Sc) -> (result: Option<
        Vec<FftResult<V>>,
    >) where V: Copy
        requires
            forall|value: V, max: usize| call_requires(scale, (value, max)),
        ensures
            result is Some == self.has_result(),
            result matches Some(results) ==> self.is_result(scale, results@),
    {
        if !self.has_result {
            return None;
        }
        let max: usize = self.output_length();
        let mut out: Vec<FftResult<V>> = Vec::with_capacity(max);
        while out.len() < max
            invariant
                max == self.buffer@.len() / 2,
                out@.len() <= max,
                forall|value: V, max: usize| call_requires(scale, (value, max)),
                forall|i: int|
                    0 <= i < out@.len() ==> {
                        &&& (#[trigger] out@[i]).index == i
                        &&& out@[i].max == max
                        &&& call_ensures(scale, (self.buffer@[i], max), out@[i].value)
                    },
            decreases max - out@.len(),
        {
            let index: usize = out.len();
            let value = scale(self.buffer[index], max);
            out.push(FftResult { value, index, max });
        }
        Some(out)
    }

    /// Whether `sample` is `item` converted and weighted, as input `idx` of the transform.
    pub open spec fn is_input_of<I, T, A: Fn(&I) -> T>(
        &self,
        item: I,
        convert: A,
        idx: int,
        sample: T,
    ) -> bool {
        exists|converted: T|
            {
                &&& #[trigger] call_ensures(convert, (&item,), converted)
                &&& sample == self.weighting().weighted(
                    converted,
                    idx,
                    self.spectrum().len() as int,
                )
            }
    }

    /// Whether `samples` are the newest of `data`, as many as the transform takes, converted and
    /// weighted.
    pub open spec fn is_input<I, T, A: Fn(&I) -> T>(
        &self,
        data: Seq<I>,
        convert: A,
        samples: Seq<T>,
    ) -> bool {
        let skip = data.len() - self.spectrum().len();
        &&& samples.len() == self.spectrum().len()
        &&& forall|i: int|
            0 <= i < samples.len() ==> self.is_input_of(
                data[skip + i],
                convert,
                i,
                #[trigger] samples[i],
            )
    }

    /// Whether `spectrum` is what `transform` makes of the newest samples of `data`, as many as the
    /// transform takes, converted and weighted.
    pub open spec fn transforms<I, T, A: Fn(&I) -> T, X: FnOnce(Vec<T>) -> Vec<V>>(
        &self,
        data: Seq<I>,
        convert: A,
        transform: X,
        spectrum: Seq<V>,
    ) -> bool {
        exists|samples: Vec<T>, made: Vec<V>|
            {
                &&& self.is_input(data, convert, samples@)
                &&& #[trigger] call_ensures(transform, (samples,), made)
                &&& spectrum == made@
            }
    }

    /// The newest samples of `data`, as many as the transform takes, converted and weighted.
    /// `None` where there are not enough.
    pub fn input_samples<I, T, A: Fn(&I) -> T>(&self, data: &[I], convert: A) -> (samples: Option<
        Vec<T>,
    >)
        requires
            forall|item: &I| call_requires(convert, (item,)),
        ensures
            samples is None <==> data@.len() < self.spectrum().len(),
            samples matches Some(values) ==> self.is_input(data@, convert, values@),
    {
        let size: usize = self.buffer.len();
        if data.len() < size {
            return None;
        }
        let skip: usize = data.len() - size;
        let mut samples: Vec<T> = Vec::with_capacity(size);
        while samples.len() < size
            invariant
                size == self.buffer@.len(),
                skip + size == data@.len(),
                samples@.len() <= size,
                forall|item: &I| call_requires(convert, (item,)),
                data@.len() <= usize::MAX,
                forall|i: int|
                    0 <= i < samples@.len() ==> self.is_input_of(
                        data@[skip + i],
                        convert,
                        i,
                        #[trigger] samples@[i],
                    ),
            decreases size - samples@.len(),
        {
            let idx: usize = samples.len();
            let intermediate = convert(&data[skip + idx]);
            let ghost converted = intermediate;
            let windowed = self.window.process(intermediate, idx, size);
            assert(call_ensures(convert, (&data@[skip + idx],), converted));
            assert(self.is_input_of(data@[skip + idx], convert, idx as int, windowed));
            samples.push(windowed);
        }
        Some(samples)
    }

    /// Transforms the newest samples of `data`, as many as the transform takes: they are converted
    /// with `convert` and weighted, and `transform` makes the spectrum of them. The result is
    /// scaled with `scale`. Where there are not enough samples, nothing happens.
    pub fn process_fft_converting<I, T, A, X, Sc>(
        &mut self,
        data: &[I],
        convert: A,
        transform: X,
        scale: Sc,
    ) -> (result: Option<Vec<FftResult<V>>>) where
        V: Copy,
        A: Fn(&I) -> T,
        X: FnOnce(Vec<T>) -> Vec<V>,
        Sc: Fn(V, usize) -> V,

        requires
            forall|item: &I| call_requires(convert, (item,)),
            forall|samples: Vec<T>|
                samples@.len() == old(self).spectrum().len() ==> #[trigger] call_requires(
                    transform,
                    (samples,),
                ),
            forall|samples: Vec<T>, spectrum: Vec<V>| #[trigger]
                call_ensures(transform, (samples,), spectrum) ==> spectrum@.len() == samples@.len(),
            forall|value: V, max: usize| call_requires(scale, (value, max)),
        ensures
            final(self).weighting() == old(self).weighting(),
            final(self).orientation() == old(self).orientation(),
            final(self).spectrum().len() == old(self).spectrum().len(),
            data@.len() < old(self).spectrum().len() ==> result is None && *final(self) == *old(
                self,
            ),
            data@.len() >= old(self).spectrum().len() ==> {
                &&& final(self).has_result()
                &&& old(self).transforms(data@, convert, transform, final(self).spectrum())
                &&& result matches Some(results) && final(self).is_result(scale, results@)
            },
    {
        match self.input_samples(data, convert) {
            Some(samples) => {
                let spectrum = transform(samples);
                self.buffer = spectrum;
                self.has_result = true;
                self.get_result(scale)
            },
            None => None,
        }
    }
}

/// Whether the conversion and the transform are functions: the same item is always converted to the
/// same sample, and the same samples always have the same spectrum.
pub open spec fn are_functions<I, T, V, A: Fn(&I) -> T, X: FnOnce(Vec<T>) -> Vec<V>>(
    convert: A,
    transform: X,
) -> bool {
    &&& forall|item: &I, a: T, b: T|
        #[trigger] call_ensures(convert, (item,), a) && #[trigger] call_ensures(
            convert,
            (item,),
            b,
        ) ==> a == b
    &&& forall|p: Vec<T>, q: Vec<T>, a: Vec<V>, b: Vec<V>|
        p@ == q@ && #[trigger] call_ensures(transform, (p,), a) && #[trigger] call_ensures(
            transform,
            (q,),
            b,
        ) ==> a@ == b@
}

/// Whether the scaling is a function: the same value is always scaled to the same one.
pub open spec fn is_function<V, Sc: Fn(V, usize) -> V>(scale: Sc) -> bool {
    forall|value: V, max: usize, a: V, b: V|
        #[trigger] call_ensures(scale, (value, max), a) && #[trigger] call_ensures(
            scale,
            (value, max),
            b,
        ) ==> a == b
}

/// A spectrum depends on nothing but the newest samples, as many as the transform takes: not on
/// samples in front of them, and not on what was transformed before.
pub proof fn law_spectrum_depends_on_newest_samples<
    I,
    T,
    V,
    A: Fn(&I) -> T,
    X: FnOnce(Vec<T>) -> Vec<V>,
>(
    fft: Fft<V>,
    data: Seq<I>,
    spectrum: Seq<V>,
    other_fft: Fft<V>,
    other_data: Seq<I>,
    other_spectrum: Seq<V>,
    convert: A,
    transform: X,
)
    requires
        are_functions(convert, transform),
        fft.spectrum().len() == other_fft.spectrum().len(),
        fft.weighting() == other_fft.weighting(),
        fft.spectrum().len() <= data.len(),
        fft.spectrum().len() <= other_data.len(),
        data.skip(data.len() - fft.spectrum().len()) == other_data.skip(
            other_data.len() - fft.spectrum().len(),
        ),
        fft.transforms(data, convert, transform, spectrum),
        other_fft.transforms(other_data, convert, transform, other_spectrum),
    ensures
        spectrum == other_spectrum,
{
    let (samples, made) = choose|samples: Vec<T>, made: Vec<V>|
        {
            &&& fft.is_input(data, convert, samples@)
            &&& #[trigger] call_ensures(transform, (samples,), made)
            &&& spectrum == made@
        };
    let (other_samples, other_made) = choose|samples: Vec<T>, made: Vec<V>|
        {
            &&& other_fft.is_input(other_data, convert, samples@)
            &&& #[trigger] call_ensures(transform, (samples,), made)
            &&& other_spectrum == made@
        };
    let n = fft.spectrum().len();
    assert forall|i: int| 0 <= i < n implies samples@[i] == other_samples@[i] by {
        let item = data[data.len() - n + i];
        assert(data.skip(data.len() - n)[i] == item);
        assert(other_data.skip(other_data.len() - n)[i] == other_data[other_data.len() - n + i]);
        assert(fft.is_input_of(item, convert, i, samples@[i]));
        assert(other_fft.is_input_of(item, convert, i, other_samples@[i]));
    }
    assert(samples@ =~= other_samples@);
}

/// The result is a matter of the spectrum alone: half as many values as the spectrum has, numbered
/// in order. So the result that was just made is what is found again.
pub proof fn law_result_is_found_again<V, Sc: Fn(V, usize) -> V>(
    fft: Fft<V>,
    results: Seq<FftResult<V>>,
    other_fft: Fft<V>,
    other_results: Seq<FftResult<V>>,
    scale: Sc,
)
    requires
        is_function(scale),
        fft.spectrum() == other_fft.spectrum(),
        fft.spectrum().len() <= usize::MAX,
        fft.is_result(scale, results),
        other_fft.is_result(scale, other_results),
    ensures
        results == other_results,
        results.len() == fft.spectrum().len() / 2,
        forall|i: int|
            0 <= i < results.len() ==> {
                &&& (#[trigger] results[i]).index == i
                &&& results[i].max == fft.spectrum().len() / 2
                &&& call_ensures(scale, (fft.spectrum()[i], results[i].max), results[i].value)
            },
{
    let max = (fft.spectrum().len() / 2) as usize;
    assert forall|i: int| 0 <= i < max implies results[i] == other_results[i] by {
        assert(results[i].index == other_results[i].index);
        let value = fft.spectrum()[i];
        assert(call_ensures(scale, (value, max), results[i].value));
        assert(call_ensures(scale, (value, max), other_results[i].value));
    }
    assert(results =~= other_results);
}

/// A result depends on nothing but the newest samples, as many as the transform takes, and is found
/// again: `again` is what is found where nothing else was transformed since.
pub proof fn law_result_depends_on_newest_samples<
    I,
    T,
    V,
    A: Fn(&I) -> T,
    X: FnOnce(Vec<T>) -> Vec<V>,
    Sc: Fn(V, usize) -> V,
>(
    before: (Fft<V>, Fft<V>),
    data: (Seq<I>, Seq<I>),
    after: (Fft<V>, Fft<V>),
    results: (Seq<FftResult<V>>, Seq<FftResult<V>>),
    again: Seq<FftResult<V>>,
    convert: A,
    transform: X,
    scale: Sc,
)
    requires
        are_functions(convert, transform),
        is_function(scale),
        before.0.spectrum().len() == before.1.spectrum().len(),
        before.0.weighting() == before.1.weighting(),
        before.0.spectrum().len() <= data.0.len(),
        before.0.spectrum().len() <= data.1.len(),
        data.0.skip(data.0.len() - before.0.spectrum().len()) == data.1.skip(
            data.1.len() - before.0.spectrum().len(),
        ),
        before.0.transforms(data.0, convert, transform, after.0.spectrum()),
        before.1.transforms(data.1, convert, transform, after.1.spectrum()),
        after.0.spectrum().len() == before.0.spectrum().len() <= usize::MAX,
        after.0.is_result(scale, results.0),
        after.1.is_result(scale, results.1),
        after.0.is_result(scale, again),
    ensures
        results.0 == results.1,
        again == results.0,
        results.0.len() == before.0.spectrum().len() / 2,
{
    law_spectrum_depends_on_newest_samples(
        before.0,
        data.0,
        after.0.spectrum(),
        before.1,
        data.1,
        after.1.spectrum(),
        convert,
        transform,
    );
    law_result_is_found_again(after.0, results.0, after.1, results.1, scale);
    law_result_is_found_again(after.0, results.0, after.0, again, scale);
}

/// The input of a transform are the newest items of the data, as many as the transform takes, each
/// of them converted, item by item and in order.
pub proof fn law_input_is_the_newest_items<I, T, V, A: Fn(&I) -> T>(
    fft: Fft<V>,
    data: Seq<I>,
    convert: A,
    samples: Seq<T>,
)
    requires
        fft.spectrum().len() <= data.len(),
        fft.is_input(data, convert, samples),
    ensures
        samples.len() == fft.spectrum().len(),
        forall|i: int|
            0 <= i < samples.len() ==> call_ensures(
                convert,
                (&data.skip(data.len() - fft.spectrum().len())[i],),
                #[trigger] samples[i],
            ),
{
    let n = fft.spectrum().len();
    assert forall|i: int| 0 <= i < samples.len() implies call_ensures(
        convert,
        (&data.skip(data.len() - n)[i],),
        #[trigger] samples[i],
    ) by {
        assert(fft.is_input_of(data[data.len() - n + i], convert, i, samples[i]));
        assert(data.skip(data.len() - n)[i] == data[data.len() - n + i]);
    }
}

/// Where the newest items of two sequences differ under the conversion, so do the inputs that are
/// made of them, at the same place.
pub proof fn law_other_items_are_another_input<I, T, V, A: Fn(&I) -> T>(
    fft: Fft<V>,
    data: (Seq<I>, Seq<I>),
    convert: A,
    samples: (Seq<T>, Seq<T>),
    at: int,
)
    requires
        fft.spectrum().len() <= data.0.len(),
        fft.spectrum().len() <= data.1.len(),
        fft.is_input(data.0, convert, samples.0),
        fft.is_input(data.1, convert, samples.1),
        0 <= at < fft.spectrum().len(),
        forall|a: T, b: T| #[trigger]
            call_ensures(
                convert,
                (&data.0.skip(data.0.len() - fft.spectrum().len())[at],),
                a,
            ) && #[trigger] call_ensures(
                convert,
                (&data.1.skip(data.1.len() - fft.spectrum().len())[at],),
                b,
            ) ==> a != b,
    ensures
        samples.0[at] != samples.1[at],
        samples.0 != samples.1,
{
    law_input_is_the_newest_items(fft, data.0, convert, samples.0);
    law_input_is_the_newest_items(fft, data.1, convert, samples.1);
    assert(call_ensures(
        convert,
        (&data.0.skip(data.0.len() - fft.spectrum().len())[at],),
        samples.0[at],
    ));
    assert(call_ensures(
        convert,
        (&data.1.skip(data.1.len() - fft.spectrum().len())[at],),
        samples.1[at],
    ));
}

/// A spectrum is what the transform makes of the newest items of the data, converted one by one.
pub proof fn law_spectrum_is_that_of_the_newest_items<
    I,
    T,
    V,
    A: Fn(&I) -> T,
    X: FnOnce(Vec<T>) -> Vec<V>,
>(fft: Fft<V>, data: Seq<I>, convert: A, transform: X, spectrum: Seq<V>)
    requires
        fft.spectrum().len() <= data.len(),
        fft.transforms(data, convert, transform, spectrum),
    ensures
        exists|samples: Vec<T>, made: Vec<V>|
            {
                &&& #[trigger] call_ensures(transform, (samples,), made)
                &&& spectrum == made@
                &&& samples@.len() == fft.spectrum().len()
                &&& forall|i: int|
                    0 <= i < samples@.len() ==> call_ensures(
                        convert,
                        (&data.skip(data.len() - fft.spectrum().len())[i],),
                        #[trigger] samples@[i],
                    )
            },
{
    let (samples, made) = choose|samples: Vec<T>, made: Vec<V>|
        {
            &&& fft.is_input(data, convert, samples@)
            &&& #[trigger] call_ensures(transform, (samples,), made)
            &&& spectrum == made@
        };
    law_input_is_the_newest_items(fft, data, convert, samples@);
    assert(call_ensures(transform, (samples,), made));
}

/// Without a window, a sample is not changed.
pub proof fn law_no_window_changes_nothing<T>(input: T, idx: int, count: int)
    ensures
        PreprocessWindow::NoWindow.weighted(input, idx, count) == input,
{
}

/// The size for a number of samples is the least one that they fit into; where they fit into none,
/// it is the largest one.
pub proof fn law_least_size_is_chosen(value: int, size: FftSize)
    ensures
        FftSize::Samples1024.count() == 1024,
        FftSize::Samples2048.count() == 2048,
        FftSize::Samples4096.count() == 4096,
        value <= size.count() ==> value <= FftSize::fitting(value).count() <= size.count(),
        value > 4096 ==> FftSize::fitting(value) == FftSize::Samples4096,
{
}

/// The frequency of a value is its share of half the rate, rounded down.
pub proof fn law_frequency_is_a_share_of_half_the_rate(rate: int, index: int, max: int)
    requires
        rate >= 0,
        index >= 0,
        max > 0,
    ensures
        ({
            let frequency = crate::hz::quotient(crate::hz::quotient(rate * index, max), 2);
            2 * (frequency * max) <= rate * index < 2 * ((frequency + 1) * max)
        }),
{
    assert(rate * index >= 0) by (nonlinear_arith)
        requires
            rate >= 0,
            index >= 0,
    ;
    let ratio = (rate * index) / max;
    let frequency = ratio / 2;
    vstd::arithmetic::div_mod::lemma_fundamental_div_mod(rate * index, max);
    vstd::arithmetic::div_mod::lemma_mod_bound(rate * index, max);
    vstd::arithmetic::div_mod::lemma_div_pos_is_pos(rate * index, max);
    assert(2 * (frequency * max) <= max * ratio) by (nonlinear_arith)
        requires
            2 * frequency <= ratio,
            max > 0,
    ;
    assert(max * (ratio + 1) <= 2 * ((frequency + 1) * max)) by (nonlinear_arith)
        requires
            ratio + 1 <= 2 * (frequency + 1),
            max > 0,
    ;
    assert(max * (ratio + 1) == max * ratio + max) by (nonlinear_arith);
}

/// Each size is the one that its number of samples leads to, so a transform has the size it was
/// built with.
pub proof fn law_size_is_found_again(size: FftSize)
    ensures
        FftSize::fitting(size.count() as int) == size,
{
}

/// The values of a spectrum cover the frequencies from zero to half the rate of the samples, in
/// order.
pub proof fn law_frequencies_cover_half_the_rate(rate: int, index: int, next: int, max: int)
    requires
        rate >= 0,
        0 <= index <= next < max,
    ensures
        0 <= crate::hz::quotient(crate::hz::quotient(rate * index, max), 2),
        crate::hz::quotient(crate::hz::quotient(rate * index, max), 2) <= crate::hz::quotient(
            crate::hz::quotient(rate * next, max),
            2,
        ),
        crate::hz::quotient(crate::hz::quotient(rate * next, max), 2) <= rate / 2,
        crate::hz::quotient(crate::hz::quotient(rate * 0, max), 2) == 0,
{
    assert(0 <= rate * index <= rate * next <= rate * max) by (nonlinear_arith)
        requires
            rate >= 0,
            0 <= index <= next < max,
    ;
    vstd::arithmetic::div_mod::lemma_div_pos_is_pos(rate * index, max);
    vstd::arithmetic::div_mod::lemma_div_is_ordered(rate * index, rate * next, max);
    vstd::arithmetic::div_mod::lemma_div_is_ordered(rate * next, rate * max, max);
    vstd::arithmetic::div_mod::lemma_div_multiples_vanish(rate, max);
    assert(max * rate == rate * max) by (nonlinear_arith);
    assert(rate * 0 == 0);
    vstd::arithmetic::div_mod::lemma_div_basics(max);
}

} // verus!
