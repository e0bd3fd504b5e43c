//! The optional neural restoration of frames: what a model is given, what is
//! accepted from it, and whether one is in use.
//!
//! A model takes a luma plane and its own hidden state, and some take a plane
//! of the link quality too. It is run by the caller.

use vstd::prelude::*;

use crate::seqs::{copy_of, repeated};
use crate::text::same_text;
use crate::video::picture::{grey, grey_pixel, law_brightness_survives_packing};

verus! {

/// Width of the hidden state where a model does not say.
pub const DEFAULT_HIDDEN_CHANNELS: usize = 16;

/// An input that a model declares.
pub struct ModelInput {
    pub name: String,
    /// Dimensions, where it is a tensor.
    pub shape: Option<Vec<i64>>,
}

/// What a model takes besides the luma plane.
#[derive(Debug, Clone, Copy, PartialEq, Eq, Structural)]
pub struct ModelInterface {
    /// Whether it takes a plane of the link quality.
    pub has_noise_input: bool,
    /// Channels of its hidden state.
    pub hidden_channels: usize,
}

/// Whether an input of this name is declared.
pub open spec fn declares(inputs: Seq<ModelInput>, name: Seq<char>) -> bool {
    exists|i: int| 0 <= i < inputs.len() && (#[trigger] inputs[i]).name@ == name
}

/// Channels that a declared shape gives: its second dimension, where that is
/// positive.
pub open spec fn channels_of(shape: Option<Vec<i64>>) -> int {
    match shape {
        Some(s) => if s.len() > 1 && s[1] > 0 {
            s[1] as int
        } else {
            16
        },
        None => 16,
    }
}

/// Channels of the first input called `hidden_in` among the first `n`.
pub open spec fn hidden_channels_of(inputs: Seq<ModelInput>, n: int) -> int
    decreases inputs.len() - n,
{
    if n >= inputs.len() {
        16
    } else if inputs[n].name@ == "hidden_in"@ {
        channels_of(inputs[n].shape)
    } else {
        hidden_channels_of(inputs, n + 1)
    }
}

/// Read off what a model takes.
pub fn read_interface(inputs: &Vec<ModelInput>) -> (m: ModelInterface)
    requires
        forall|i: int|
            0 <= i < inputs.len() ==> channels_of((#[trigger] inputs[i]).shape) <= usize::MAX,
    ensures
        m.has_noise_input == declares(inputs@, "noise"@),
        m.hidden_channels == hidden_channels_of(inputs@, 0),
{
    let mut has_noise_input: bool = false;
    let mut hidden_channels: usize = DEFAULT_HIDDEN_CHANNELS;
    let mut found: bool = false;
    let mut i: usize = 0;
    while i < inputs.len()
        invariant
            i <= inputs.len(),
            forall|i: int|
                0 <= i < inputs.len() ==> channels_of((#[trigger] inputs[i]).shape) <= usize::MAX,
            has_noise_input == exists|k: int|
                0 <= k < i && (#[trigger] inputs[k]).name@ == "noise"@,
            found ==> hidden_channels == hidden_channels_of(inputs@, 0),
            !found ==> hidden_channels == 16 && hidden_channels_of(inputs@, 0)
                == hidden_channels_of(inputs@, i as int),
        decreases inputs.len() - i,
    {
        if same_text(inputs[i].name.as_str(), "noise") {
            has_noise_input = true;
        }
        if !found && same_text(inputs[i].name.as_str(), "hidden_in") {
            found = true;
            match &inputs[i].shape {
                Some(s) => {
                    if s.len() > 1 && s[1] > 0 {
                        assert(channels_of(inputs@[i as int].shape) == s[1]);
                        hidden_channels = s[1] as usize;
                    }
                },
                None => {},
            }
        }
        i += 1;
    }
    ModelInterface { has_noise_input, hidden_channels }
}

/// Whether a shape is that of a plane with this many channels.
pub open spec fn is_plane(shape: Seq<i64>, channels: int, height: int, width: int) -> bool {
    shape.len() == 4 && shape[0] == 1 && shape[1] == channels && shape[2] == height && shape[3]
        == width
}

fn plane_matches(shape: &Vec<i64>, channels: usize, height: usize, width: usize) -> (b: bool)
    ensures
        b == is_plane(shape@, channels as int, height as int, width as int),
{
    shape.len() == 4 && shape[0] == 1 && shape[1] as i128 == channels as i128 && shape[2] as i128
        == height as i128 && shape[3] as i128 == width as i128
}

/// What a model is run on. Planes are row by row.
pub struct RunInputs<T> {
    pub width: usize,
    pub height: usize,
    pub luma: Vec<T>,
    pub noise: Option<Vec<T>>,
    pub hidden_channels: usize,
    pub hidden: Vec<T>,
}

/// What a model gave.
pub struct RunOutputs<T> {
    pub output_shape: Vec<i64>,
    pub output: Vec<T>,
    pub hidden_shape: Vec<i64>,
    pub hidden: Vec<T>,
}

/// Why a frame was not restored.
#[derive(Debug)]
pub enum RestoreError<E> {
    /// The model could not be run.
    Run(E),
    /// The restored plane has other dimensions.
    OutputShape,
    /// The hidden state has other dimensions.
    HiddenShape,
}

/// The values of a hidden state, where there is one.
pub open spec fn state_of<T>(hidden: Option<&Vec<T>>) -> Option<Seq<T>> {
    match hidden {
        Some(h) => Some(h@),
        None => None,
    }
}

/// What a frame's run is given: the luma plane, the hidden state or zeros for
/// the first frame, and a constant plane where the model takes one.
pub open spec fn inputs_for<T>(
    m: ModelInterface,
    width: int,
    height: int,
    luma: Seq<T>,
    level: T,
    hidden: Option<Seq<T>>,
    zero: T,
    run: RunInputs<T>,
) -> bool {
    &&& run.width == width
    &&& run.height == height
    &&& run.hidden_channels == m.hidden_channels
    &&& run.luma@ == luma
    &&& run.hidden@ == match hidden {
        Some(h) => h,
        None => Seq::new((m.hidden_channels * (width * height)) as nat, |i: int| zero),
    }
    &&& match run.noise {
        Some(plane) => m.has_noise_input && plane@ == Seq::new(
            (width * height) as nat,
            |i: int| level,
        ),
        None => !m.has_noise_input,
    }
}

/// Restore a luma plane. `run` runs the model and `clamp` holds a value
/// between black and white. Gives the new hidden state; `luma_out` holds the
/// restored plane unless its dimensions were wrong.
pub fn process_frame_luma<
    T: Copy,
    E,
    R: FnOnce(&RunInputs<T>) -> Result<RunOutputs<T>, E>,
    C: Fn(T) -> T,
>(
    m: &ModelInterface,
    width: usize,
    height: usize,
    luma_in: &Vec<T>,
    noise_level: T,
    hidden_in: Option<&Vec<T>>,
    luma_out: &mut Vec<T>,
    zero: T,
    run: R,
    clamp: C,
) -> (r: Result<Vec<T>, RestoreError<E>>)
    requires
        luma_in.len() == width * height,
        old(luma_out).len() == width * height,
        m.hidden_channels * (width * height) <= usize::MAX,
        hidden_in matches Some(h) ==> h.len() == m.hidden_channels * (width * height),
        forall|i: &RunInputs<T>| #[trigger] run.requires((i,)),
        forall|i: &RunInputs<T>, o: RunOutputs<T>| #[trigger]
            run.ensures((i,), Ok(o)) ==> (is_plane(o.output_shape@, 1, height as int, width as int)
                ==> o.output.len() == width * height),
        forall|v: T| #[trigger] clamp.requires((v,)),
    ensures
        final(luma_out).len() == old(luma_out).len(),
        exists|level: T, i: RunInputs<T>, o: Result<RunOutputs<T>, E>|
            {
                &&& m.has_noise_input ==> clamp.ensures((noise_level,), level)
                &&& #[trigger] inputs_for(
                    *m,
                    width as int,
                    height as int,
                    luma_in@,
                    level,
                    state_of(hidden_in),
                    zero,
                    i,
                )
                &&& #[trigger] run.ensures((&i,), o)
                &&& match o {
                    Err(e) => r == Err::<Vec<T>, RestoreError<E>>(RestoreError::Run(e))
                        && final(luma_out)@ == old(luma_out)@,
                    Ok(o) => if !is_plane(o.output_shape@, 1, height as int, width as int) {
                        &&& r == Err::<Vec<T>, RestoreError<E>>(RestoreError::OutputShape)
                        &&& final(luma_out)@ == old(luma_out)@
                    } else {
                        &&& forall|k: int|
                            0 <= k < final(luma_out).len() ==> clamp.ensures(
                                (o.output@[k],),
                                #[trigger] final(luma_out)@[k],
                            )
                        &&& if is_plane(
                            o.hidden_shape@,
                            m.hidden_channels as int,
                            height as int,
                            width as int,
                        ) {
                            r matches Ok(h) && h@ == o.hidden@
                        } else {
                            r == Err::<Vec<T>, RestoreError<E>>(RestoreError::HiddenShape)
                        }
                    },
                }
            },
{
    let plane: usize = luma_in.len();
    let hidden: Vec<T> = match hidden_in {
        Some(h) => copy_of(h.as_slice()),
        None => repeated(zero, m.hidden_channels * plane),
    };
    let ghost mut level: T = noise_level;
    let noise: Option<Vec<T>> = if m.has_noise_input {
        let clamped: T = clamp(noise_level);
        proof {
            level = clamped;
        }
        Some(repeated(clamped, plane))
    } else {
        None
    };
    let inputs: RunInputs<T> = RunInputs {
        width,
        height,
        luma: copy_of(luma_in.as_slice()),
        noise,
        hidden_channels: m.hidden_channels,
        hidden,
    };
    proof {
        if hidden_in is None {
            assert(inputs.hidden@ =~= Seq::new(
                (m.hidden_channels * (width * height)) as nat,
                |i: int| zero,
            ));
        }
        if m.has_noise_input {
            assert(inputs.noise.unwrap()@ =~= Seq::new((width * height) as nat, |i: int| level));
        }
        assert(inputs_for(
            *m,
            width as int,
            height as int,
            luma_in@,
            level,
            state_of(hidden_in),
            zero,
            inputs,
        ));
    }
    let out: RunOutputs<T> = match run(&inputs) {
        Err(e) => {
            assert(run.ensures((&inputs,), Err(e)));
            return Err(RestoreError::Run(e));
        },
        Ok(o) => o,
    };
    assert(run.ensures((&inputs,), Ok(out)));
    if !plane_matches(&out.output_shape, 1, height, width) {
        return Err(RestoreError::OutputShape);
    }
    let mut k: usize = 0;
    while k < plane
        invariant
            k <= plane,
            luma_out.len() == plane,
            out.output.len() == plane,
            forall|v: T| #[trigger] clamp.requires((v,)),
            forall|j: int|
                0 <= j < k ==> clamp.ensures((out.output@[j],), #[trigger] luma_out@[j]),
        decreases plane - k,
    {
        let v: T = clamp(out.output[k]);
        luma_out.set(k, v);
        k += 1;
    }
    if !plane_matches(&out.hidden_shape, m.hidden_channels, height, width) {
        return Err(RestoreError::HiddenShape);
    }
    Ok(copy_of(out.hidden.as_slice()))
}

/// A restorer that can be switched off and on again, and its hidden state.
pub struct RestorerSlot<R, H> {
    active: Option<R>,
    stashed: Option<R>,
    hidden: Option<H>,
}

impl<R, H> RestorerSlot<R, H> {
    /// The restorer in use.
    pub closed spec fn in_use(&self) -> Option<R> {
        self.active
    }

    /// The restorer that is switched off.
    pub closed spec fn put_by(&self) -> Option<R> {
        self.stashed
    }

    /// The hidden state that the next frame is given.
    pub closed spec fn state(&self) -> Option<H> {
        self.hidden
    }

    pub fn new() -> (s: Self)
        ensures
            s.in_use() is None,
            s.put_by() is None,
            s.state() is None,
    {
        RestorerSlot { active: None, stashed: None, hidden: None }
    }

    /// Use a restorer from now on; the state starts over.
    pub fn load(&mut self, restorer: R)
        ensures
            final(self).in_use() == Some(restorer),
            final(self).put_by() is None,
            final(self).state() is None,
    {
        self.active = Some(restorer);
        self.stashed = None;
        self.hidden = None;
    }

    /// Switch restoration on or off. Where that changes something the state
    /// starts over.
    pub fn set_restoration_enabled(&mut self, enabled: bool)
        ensures
            enabled && old(self).in_use() is None ==> final(self).in_use() == old(self).put_by()
                && final(self).put_by() is None && final(self).state() is None,
            !enabled && old(self).in_use() is Some ==> final(self).in_use() is None && final(
                self).put_by() == old(self).in_use() && final(self).state() is None,
            enabled == (old(self).in_use() is Some) ==> *final(self) == *old(self),
    {
        if enabled && self.active.is_none() {
            self.active = self.stashed.take();
            self.hidden = None;
        } else if !enabled && self.active.is_some() {
            self.stashed = self.active.take();
            self.hidden = None;
        }
    }

    /// Take the restorer and the state out for a frame.
    pub fn take(&mut self) -> (r: Option<(R, Option<H>)>)
        ensures
            match r {
                Some((restorer, state)) => old(self).in_use() == Some(restorer) && state == old(
                    self).state() && final(self).in_use() is None && final(self).state() is None,
                None => old(self).in_use() is None && *final(self) == *old(self),
            },
            final(self).put_by() == old(self).put_by(),
    {
        match self.active.take() {
            Some(restorer) => {
                let state: Option<H> = self.hidden.take();
                Some((restorer, state))
            },
            None => None,
        }
    }

    /// Put the restorer back with the state that the next frame is given.
    pub fn put_back(&mut self, restorer: R, state: Option<H>)
        ensures
            final(self).in_use() == Some(restorer),
            final(self).state() == state,
            final(self).put_by() == old(self).put_by(),
    {
        self.active = Some(restorer);
        self.hidden = state;
    }
}

/// Luma of a frame, from the red byte of each pixel.
pub fn frame_luma(frame: &[u32]) -> (luma: Vec<u8>)
    ensures
        luma@ == Seq::new(frame@.len(), |i: int| (frame@[i] / 0x1_0000 % 0x100) as u8),
{
    let ghost whole = Seq::new(frame@.len(), |i: int| (frame@[i] / 0x1_0000 % 0x100) as u8);
    let mut luma: Vec<u8> = Vec::new();
    let mut i: usize = 0;
    while i < frame.len()
        invariant
            i <= frame.len(),
            whole == Seq::new(frame@.len(), |i: int| (frame@[i] / 0x1_0000 % 0x100) as u8),
            luma@ == whole.take(i as int),
        decreases frame.len() - i,
    {
        luma.push((frame[i] / 0x1_0000 % 0x100) as u8);
        i += 1;
        assert(luma@ =~= whole.take(i as int));
    }
    assert(luma@ =~= whole);
    luma
}

/// Grey pixels of a luma plane.
pub fn pack_luma(luma: &Vec<u8>) -> (frame: Vec<u32>)
    ensures
        frame@ == Seq::new(luma@.len(), |i: int| grey(luma@[i] as int) as u32),
{
    let ghost whole = Seq::new(luma@.len(), |i: int| grey(luma@[i] as int) as u32);
    let mut frame: Vec<u32> = Vec::new();
    let mut i: usize = 0;
    while i < luma.len()
        invariant
            i <= luma.len(),
            whole == Seq::new(luma@.len(), |i: int| grey(luma@[i] as int) as u32),
            frame@ == whole.take(i as int),
        decreases luma.len() - i,
    {
        frame.push(grey_pixel(luma[i]));
        i += 1;
        assert(frame@ =~= whole.take(i as int));
    }
    assert(frame@ =~= whole);
    frame
}

/// Packing a luma plane and reading it back gives the same plane.
pub proof fn law_packed_luma_reads_back(luma: Seq<u8>, i: int)
    requires
        0 <= i < luma.len(),
    ensures
        (grey(luma[i] as int) as u32 / 0x1_0000 % 0x100) as u8 == luma[i],
{
    law_brightness_survives_packing(luma[i] as int);
}

/// The first input called `hidden_in` tells the channels, by its second
/// dimension where that is positive; where there is none, there are sixteen.
pub proof fn law_first_hidden_input_tells_the_channels(inputs: Seq<ModelInput>, j: int)
    requires
        0 <= j <= inputs.len(),
        forall|i: int| 0 <= i < j ==> (#[trigger] inputs[i]).name@ != "hidden_in"@,
        j < inputs.len() ==> inputs[j].name@ == "hidden_in"@,
    ensures
        j == inputs.len() ==> hidden_channels_of(inputs, 0) == 16,
        j < inputs.len() ==> {
            &&& inputs[j].shape is None ==> hidden_channels_of(inputs, 0) == 16
            &&& inputs[j].shape matches Some(s) ==> {
                &&& s@.len() >= 2 && s@[1] > 0 ==> hidden_channels_of(inputs, 0) == s@[1]
                &&& s@.len() < 2 || s@[1] <= 0 ==> hidden_channels_of(inputs, 0) == 16
            }
        },
{
    lemma_hidden_from(inputs, 0, j);
}

proof fn lemma_hidden_from(inputs: Seq<ModelInput>, n: int, j: int)
    requires
        0 <= n <= j <= inputs.len(),
        forall|i: int| 0 <= i < j ==> (#[trigger] inputs[i]).name@ != "hidden_in"@,
    ensures
        hidden_channels_of(inputs, n) == hidden_channels_of(inputs, j),
    decreases j - n,
{
    if n < j {
        assert(inputs[n].name@ != "hidden_in"@);
        lemma_hidden_from(inputs, n + 1, j);
    }
}

} // verus!
