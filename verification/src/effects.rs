//! Audio effects that can be applied to an audio bus.
//!
//! An effect turns a buffer of stereo frames into a buffer of the same
//! length. `Effect` is the closed set of effect kinds a bus can hold; it
//! renders by matching on the kind, with no indirection. Attenuation is
//! defined here. The reverb and the six filters are plugged in as type
//! parameters: whatever they compute, they meet `EffectRenderTrait`, and
//! everything proved of `Effect` holds for any of them.
use crate::binary32::{lemma_product_by_one, lemma_product_by_zero, Frame, Sample, ONE_BITS};
use std::ops::{Deref, DerefMut};
use vstd::prelude::*;

verus! {

/// What every effect offers: rendering a buffer.
///
/// An effect's behaviour is given by two functions of its state and an input:
/// the frames it puts out, and the state it is left in. Both must respect
/// buffer boundaries: rendering two buffers one after the other is rendering
/// their concatenation.
pub trait EffectRenderTrait: Sized {
    /// The frames that this effect, in this state, puts out for `input`.
    spec fn rendered(&self, input: Seq<Frame>) -> Seq<Frame>;

    /// The state that rendering `input` leaves this effect in.
    spec fn advanced(&self, input: Seq<Frame>) -> Self;

    /// One output frame per input frame.
    proof fn lemma_rendered_len(&self, input: Seq<Frame>)
        ensures
            self.rendered(input).len() == input.len(),
    ;

    /// Rendering `head` and then `tail` is rendering `head + tail`.
    proof fn lemma_continuity(&self, head: Seq<Frame>, tail: Seq<Frame>)
        ensures
            self.rendered(head + tail) == self.rendered(head) + self.advanced(head).rendered(tail),
            self.advanced(head + tail) == self.advanced(head).advanced(tail),
    ;

    /// Fills `output` with the rendering of `input`.
    fn render(&mut self, input: &[Frame], output: &mut [Frame])
        requires
            input@.len() == old(output)@.len(),
        ensures
            final(output)@ == old(self).rendered(input@),
            *final(self) == old(self).advanced(input@),
    ;
}

/// A frame with both channels multiplied by `gain`.
pub open spec fn attenuated(frame: Frame, gain: Sample) -> Frame {
    (frame.0.product(gain), frame.1.product(gain))
}

/// Attenuation effect: multiplies every sample by a gain that is never
/// negative. A gain above one amplifies.
#[derive(Debug, PartialEq, Eq, Structural)]
pub struct Attenuate {
    gain: Sample,
}

impl Attenuate {
    #[verifier::type_invariant]
    closed spec fn gain_is_clamped(self) -> bool {
        !self.gain.nan() && !self.gain.sign_negative()
    }

    /// The gain in use.
    pub closed spec fn gain_value(&self) -> Sample {
        self.gain
    }

    /// Creates new attenuation effect. A negative or NaN gain becomes zero.
    pub fn new(gain: Sample) -> (r: Self)
        ensures
            r.gain_value() == gain.clamped(),
    {
        Self { gain: gain.non_negative() }
    }

    /// The gain in use: a number, and not negative.
    pub fn gain(&self) -> (r: Sample)
        ensures
            r == self.gain_value(),
            !r.nan(),
            !r.sign_negative(),
    {
        proof {
            use_type_invariant(self);
        }
        self.gain
    }

    /// Replaces the gain. A negative or NaN gain becomes zero.
    pub fn set_gain(&mut self, gain: Sample)
        ensures
            final(self).gain_value() == gain.clamped(),
    {
        self.gain = gain.non_negative();
    }
}

impl Clone for Attenuate {
    fn clone(&self) -> (r: Self)
        ensures
            r == *self,
    {
        proof {
            use_type_invariant(self);
        }
        Self { gain: self.gain }
    }
}

impl Default for Attenuate {
    /// Unit gain: the effect changes nothing.
    fn default() -> (r: Self)
        ensures
            r.gain_value() == Sample::unity(),
    {
        Self { gain: Sample { bits: ONE_BITS } }
    }
}

impl EffectRenderTrait for Attenuate {
    open spec fn rendered(&self, input: Seq<Frame>) -> Seq<Frame> {
        Seq::new(input.len(), |i: int| attenuated(input[i], self.gain_value()))
    }

    open spec fn advanced(&self, input: Seq<Frame>) -> Self {
        *self
    }

    proof fn lemma_rendered_len(&self, input: Seq<Frame>) {
    }

    proof fn lemma_continuity(&self, head: Seq<Frame>, tail: Seq<Frame>) {
        assert(self.rendered(head + tail) =~= self.rendered(head) + self.rendered(tail));
    }

    fn render(&mut self, input: &[Frame], output: &mut [Frame]) {
        let n: usize = input.len();
        let mut i: usize = 0;
        while i < n
            invariant
                n == input@.len(),
                output@.len() == n,
                i <= n,
                *self == *old(self),
                forall|j: int| 0 <= j < i ==> output@[j] == attenuated(input@[j], self.gain_value()),
            decreases n - i,
        {
            let frame: Frame = input[i];
            output[i] = (frame.0.times(self.gain), frame.1.times(self.gain));
            i += 1;
        }
        assert(output@ =~= self.rendered(input@));
    }
}

/// At unit gain, attenuation hands every number through bit for bit, and
/// answers a NaN with a NaN.
pub proof fn lemma_unit_gain_is_identity(effect: Attenuate, input: Seq<Frame>, i: int)
    requires
        effect.gain_value() == Sample::unity(),
        0 <= i < input.len(),
    ensures
        effect.rendered(input).len() == input.len(),
        !input[i].0.nan() ==> effect.rendered(input)[i].0 == input[i].0,
        !input[i].1.nan() ==> effect.rendered(input)[i].1 == input[i].1,
        input[i].0.nan() ==> effect.rendered(input)[i].0.nan(),
        input[i].1.nan() ==> effect.rendered(input)[i].1.nan(),
        !input[i].0.nan() && !input[i].1.nan() ==> effect.rendered(input)[i] == input[i],
{
    lemma_product_by_one(input[i].0);
    lemma_product_by_one(input[i].1);
}

/// An attenuation is its gain and nothing else: one built from the gain of
/// another, clamped again, equals it.
pub proof fn lemma_rebuilt_from_gain(effect: Attenuate, rebuilt: Attenuate)
    requires
        !effect.gain_value().nan(),
        !effect.gain_value().sign_negative(),
        rebuilt.gain_value() == effect.gain_value().clamped(),
    ensures
        rebuilt == effect,
{
}

/// At zero gain, attenuation answers every finite sample with a zero that
/// carries the sample's sign.
pub proof fn lemma_zero_gain_is_silence(effect: Attenuate, input: Seq<Frame>, i: int)
    requires
        effect.gain_value() == Sample::silence(),
        0 <= i < input.len(),
    ensures
        input[i].0.finite() ==> effect.rendered(input)[i].0.zero(),
        input[i].1.finite() ==> effect.rendered(input)[i].1.zero(),
        input[i].0.finite() ==> (effect.rendered(input)[i].0.sign_negative()
            <==> input[i].0.sign_negative()),
        input[i].1.finite() ==> (effect.rendered(input)[i].1.sign_negative()
            <==> input[i].1.sign_negative()),
{
    if input[i].0.finite() {
        lemma_product_by_zero(input[i].0);
    }
    if input[i].1.finite() {
        lemma_product_by_zero(input[i].1);
    }
}

/// Effects is a digital signal processing (DSP) unit that transforms input
/// signal in a specific way. One kind is active at a time; replacing it
/// discards its state.
#[derive(Clone, Debug, PartialEq)]
pub enum Effect<Rv, Lp, Hp, Bp, Ap, Ls, Hs> {
    /// See [`Attenuate`] docs for more info.
    Attenuate(Attenuate),
    /// A reverberation effect.
    Reverb(Rv),
    /// A filter that passes what lies below its cutoff.
    LowPassFilter(Lp),
    /// A filter that passes what lies above its cutoff.
    HighPassFilter(Hp),
    /// A filter that passes a band around its centre.
    BandPassFilter(Bp),
    /// A filter that passes every frequency and shifts phase.
    AllPassFilter(Ap),
    /// A filter that lifts or lowers what lies below its cutoff.
    LowShelfFilter(Ls),
    /// A filter that lifts or lowers what lies above its cutoff.
    HighShelfFilter(Hs),
}

impl<Rv, Lp, Hp, Bp, Ap, Ls, Hs> Effect<Rv, Lp, Hp, Bp, Ap, Ls, Hs> {
    /// The name of the active kind.
    pub open spec fn kind_name(&self) -> Seq<char> {
        match self {
            Effect::Attenuate(_) => "Attenuate"@,
            Effect::Reverb(_) => "Reverb"@,
            Effect::LowPassFilter(_) => "LowPassFilter"@,
            Effect::HighPassFilter(_) => "HighPassFilter"@,
            Effect::BandPassFilter(_) => "BandPassFilter"@,
            Effect::AllPassFilter(_) => "AllPassFilter"@,
            Effect::LowShelfFilter(_) => "LowShelfFilter"@,
            Effect::HighShelfFilter(_) => "HighShelfFilter"@,
        }
    }

    /// The name of the active kind, as it is written in source.
    pub fn name(&self) -> (r: &'static str)
        ensures
            r@ == self.kind_name(),
    {
        match self {
            Effect::Attenuate(_) => "Attenuate",
            Effect::Reverb(_) => "Reverb",
            Effect::LowPassFilter(_) => "LowPassFilter",
            Effect::HighPassFilter(_) => "HighPassFilter",
            Effect::BandPassFilter(_) => "BandPassFilter",
            Effect::AllPassFilter(_) => "AllPassFilter",
            Effect::LowShelfFilter(_) => "LowShelfFilter",
            Effect::HighShelfFilter(_) => "HighShelfFilter",
        }
    }
}

impl<Rv, Lp, Hp, Bp, Ap, Ls, Hs> Default for Effect<Rv, Lp, Hp, Bp, Ap, Ls, Hs> {
    /// Attenuation at unit gain, so that a fresh slot changes nothing.
    fn default() -> (r: Self)
        ensures
            r matches Effect::Attenuate(a) && a.gain_value() == Sample::unity(),
    {
        Effect::Attenuate(Attenuate::default())
    }
}

impl<
    Rv: EffectRenderTrait,
    Lp: EffectRenderTrait,
    Hp: EffectRenderTrait,
    Bp: EffectRenderTrait,
    Ap: EffectRenderTrait,
    Ls: EffectRenderTrait,
    Hs: EffectRenderTrait,
> EffectRenderTrait for Effect<Rv, Lp, Hp, Bp, Ap, Ls, Hs> {
    /// What the active kind renders.
    open spec fn rendered(&self, input: Seq<Frame>) -> Seq<Frame> {
        match self {
            Effect::Attenuate(v) => v.rendered(input),
            Effect::Reverb(v) => v.rendered(input),
            Effect::LowPassFilter(v) => v.rendered(input),
            Effect::HighPassFilter(v) => v.rendered(input),
            Effect::BandPassFilter(v) => v.rendered(input),
            Effect::AllPassFilter(v) => v.rendered(input),
            Effect::LowShelfFilter(v) => v.rendered(input),
            Effect::HighShelfFilter(v) => v.rendered(input),
        }
    }

    /// The same kind, in the state its own rendering leaves it in.
    open spec fn advanced(&self, input: Seq<Frame>) -> Self {
        match self {
            Effect::Attenuate(v) => Effect::Attenuate(v.advanced(input)),
            Effect::Reverb(v) => Effect::Reverb(v.advanced(input)),
            Effect::LowPassFilter(v) => Effect::LowPassFilter(v.advanced(input)),
            Effect::HighPassFilter(v) => Effect::HighPassFilter(v.advanced(input)),
            Effect::BandPassFilter(v) => Effect::BandPassFilter(v.advanced(input)),
            Effect::AllPassFilter(v) => Effect::AllPassFilter(v.advanced(input)),
            Effect::LowShelfFilter(v) => Effect::LowShelfFilter(v.advanced(input)),
            Effect::HighShelfFilter(v) => Effect::HighShelfFilter(v.advanced(input)),
        }
    }

    proof fn lemma_rendered_len(&self, input: Seq<Frame>) {
        match self {
            Effect::Attenuate(v) => v.lemma_rendered_len(input),
            Effect::Reverb(v) => v.lemma_rendered_len(input),
            Effect::LowPassFilter(v) => v.lemma_rendered_len(input),
            Effect::HighPassFilter(v) => v.lemma_rendered_len(input),
            Effect::BandPassFilter(v) => v.lemma_rendered_len(input),
            Effect::AllPassFilter(v) => v.lemma_rendered_len(input),
            Effect::LowShelfFilter(v) => v.lemma_rendered_len(input),
            Effect::HighShelfFilter(v) => v.lemma_rendered_len(input),
        }
    }

    proof fn lemma_continuity(&self, head: Seq<Frame>, tail: Seq<Frame>) {
        match self {
            Effect::Attenuate(v) => v.lemma_continuity(head, tail),
            Effect::Reverb(v) => v.lemma_continuity(head, tail),
            Effect::LowPassFilter(v) => v.lemma_continuity(head, tail),
            Effect::HighPassFilter(v) => v.lemma_continuity(head, tail),
            Effect::BandPassFilter(v) => v.lemma_continuity(head, tail),
            Effect::AllPassFilter(v) => v.lemma_continuity(head, tail),
            Effect::LowShelfFilter(v) => v.lemma_continuity(head, tail),
            Effect::HighShelfFilter(v) => v.lemma_continuity(head, tail),
        }
    }

    fn render(&mut self, input: &[Frame], output: &mut [Frame]) {
        match self {
            Effect::Attenuate(v) => v.render(input, output),
            Effect::Reverb(v) => v.render(input, output),
            Effect::LowPassFilter(v) => v.render(input, output),
            Effect::HighPassFilter(v) => v.render(input, output),
            Effect::BandPassFilter(v) => v.render(input, output),
            Effect::AllPassFilter(v) => v.render(input, output),
            Effect::LowShelfFilter(v) => v.render(input, output),
            Effect::HighShelfFilter(v) => v.render(input, output),
        }
    }
}

/// An effect renders exactly as the kind it holds renders by itself, and is
/// left holding that kind in the state its own rendering leaves.
pub proof fn lemma_dispatch<
    Rv: EffectRenderTrait,
    Lp: EffectRenderTrait,
    Hp: EffectRenderTrait,
    Bp: EffectRenderTrait,
    Ap: EffectRenderTrait,
    Ls: EffectRenderTrait,
    Hs: EffectRenderTrait,
>(effect: Effect<Rv, Lp, Hp, Bp, Ap, Ls, Hs>, input: Seq<Frame>)
    ensures
        effect matches Effect::Attenuate(v) ==> effect.rendered(input) == v.rendered(input)
            && effect.advanced(input) == Effect::<Rv, Lp, Hp, Bp, Ap, Ls, Hs>::Attenuate(
            v.advanced(input),
        ),
        effect matches Effect::Reverb(v) ==> effect.rendered(input) == v.rendered(input)
            && effect.advanced(input) == Effect::<Rv, Lp, Hp, Bp, Ap, Ls, Hs>::Reverb(
            v.advanced(input),
        ),
        effect matches Effect::LowPassFilter(v) ==> effect.rendered(input) == v.rendered(input)
            && effect.advanced(input) == Effect::<Rv, Lp, Hp, Bp, Ap, Ls, Hs>::LowPassFilter(
            v.advanced(input),
        ),
        effect matches Effect::HighPassFilter(v) ==> effect.rendered(input) == v.rendered(input)
            && effect.advanced(input) == Effect::<Rv, Lp, Hp, Bp, Ap, Ls, Hs>::HighPassFilter(
            v.advanced(input),
        ),
        effect matches Effect::BandPassFilter(v) ==> effect.rendered(input) == v.rendered(input)
            && effect.advanced(input) == Effect::<Rv, Lp, Hp, Bp, Ap, Ls, Hs>::BandPassFilter(
            v.advanced(input),
        ),
        effect matches Effect::AllPassFilter(v) ==> effect.rendered(input) == v.rendered(input)
            && effect.advanced(input) == Effect::<Rv, Lp, Hp, Bp, Ap, Ls, Hs>::AllPassFilter(
            v.advanced(input),
        ),
        effect matches Effect::LowShelfFilter(v) ==> effect.rendered(input) == v.rendered(input)
            && effect.advanced(input) == Effect::<Rv, Lp, Hp, Bp, Ap, Ls, Hs>::LowShelfFilter(
            v.advanced(input),
        ),
        effect matches Effect::HighShelfFilter(v) ==> effect.rendered(input) == v.rendered(input)
            && effect.advanced(input) == Effect::<Rv, Lp, Hp, Bp, Ap, Ls, Hs>::HighShelfFilter(
            v.advanced(input),
        ),
        effect.rendered(input).len() == input.len(),
{
    effect.lemma_rendered_len(input);
}

/// An effect as `Effect::default` makes it hands every number through bit
/// for bit, answers a NaN with a NaN, and stays as it is.
pub proof fn lemma_default_effect_is_identity<
    Rv: EffectRenderTrait,
    Lp: EffectRenderTrait,
    Hp: EffectRenderTrait,
    Bp: EffectRenderTrait,
    Ap: EffectRenderTrait,
    Ls: EffectRenderTrait,
    Hs: EffectRenderTrait,
>(effect: Effect<Rv, Lp, Hp, Bp, Ap, Ls, Hs>, input: Seq<Frame>, i: int)
    requires
        effect matches Effect::Attenuate(a) && a.gain_value() == Sample::unity(),
        0 <= i < input.len(),
    ensures
        effect.rendered(input).len() == input.len(),
        effect.advanced(input) == effect,
        !input[i].0.nan() ==> effect.rendered(input)[i].0 == input[i].0,
        !input[i].1.nan() ==> effect.rendered(input)[i].1 == input[i].1,
        input[i].0.nan() ==> effect.rendered(input)[i].0.nan(),
        input[i].1.nan() ==> effect.rendered(input)[i].1.nan(),
{
    match effect {
        Effect::Attenuate(a) => lemma_unit_gain_is_identity(a, input, i),
        _ => {},
    }
}

/// A slot of an effect chain: one effect, shown under the label
/// "Effect Type" where effects are inspected. The slot adds no state of its
/// own and stands for its effect wherever one is read or changed.
#[derive(Clone, Debug, PartialEq)]
pub struct EffectWrapper<Rv, Lp, Hp, Bp, Ap, Ls, Hs>(pub Effect<Rv, Lp, Hp, Bp, Ap, Ls, Hs>);

impl<Rv, Lp, Hp, Bp, Ap, Ls, Hs> Default for EffectWrapper<Rv, Lp, Hp, Bp, Ap, Ls, Hs> {
    fn default() -> (r: Self)
        ensures
            r.0 matches Effect::Attenuate(a) && a.gain_value() == Sample::unity(),
    {
        EffectWrapper(Effect::default())
    }
}

impl<Rv, Lp, Hp, Bp, Ap, Ls, Hs> EffectWrapper<Rv, Lp, Hp, Bp, Ap, Ls, Hs> {
    /// The label under which the wrapped effect is shown.
    pub fn display_name() -> (r: &'static str)
        ensures
            r@ == "Effect Type"@,
    {
        "Effect Type"
    }
}

impl<Rv, Lp, Hp, Bp, Ap, Ls, Hs> Deref for EffectWrapper<Rv, Lp, Hp, Bp, Ap, Ls, Hs> {
    type Target = Effect<Rv, Lp, Hp, Bp, Ap, Ls, Hs>;

    fn deref(&self) -> (r: &Self::Target)
        ensures
            *r == self.0,
    {
        &self.0
    }
}

impl<Rv, Lp, Hp, Bp, Ap, Ls, Hs> DerefMut for EffectWrapper<Rv, Lp, Hp, Bp, Ap, Ls, Hs> {
    fn deref_mut(&mut self) -> (r: &mut Self::Target)
        ensures
            *r == old(self).0,
            final(self).0 == *final(r),
    {
        &mut self.0
    }
}

} // verus!
