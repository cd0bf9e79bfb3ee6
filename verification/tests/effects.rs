use sound_effects::binary32::{Frame, Sample};
use sound_effects::effects::{Attenuate, Effect, EffectRenderTrait, EffectWrapper};

fn sample(x: f32) -> Sample {
    Sample::from_bits(x.to_bits())
}

fn frame(left: f32, right: f32) -> Frame {
    (sample(left), sample(right))
}

fn values(frames: &[Frame]) -> Vec<(f32, f32)> {
    frames.iter().map(|f| (f32::from_bits(f.0.to_bits()), f32::from_bits(f.1.to_bits()))).collect()
}

fn silence(n: usize) -> Vec<Frame> {
    vec![frame(0.0, 0.0); n]
}

/// The seven open kinds, each given an attenuation to hold.
type Fx = Effect<Attenuate, Attenuate, Attenuate, Attenuate, Attenuate, Attenuate, Attenuate>;

type Slot =
    EffectWrapper<Attenuate, Attenuate, Attenuate, Attenuate, Attenuate, Attenuate, Attenuate>;

fn gain(g: f32) -> Attenuate {
    Attenuate::new(sample(g))
}

/// One effect of each kind, each with a gain of its own.
fn one_of_each() -> Vec<(Fx, f32)> {
    vec![
        (Effect::Attenuate(gain(0.5)), 0.5),
        (Effect::Reverb(gain(2.0)), 2.0),
        (Effect::LowPassFilter(gain(0.1)), 0.1),
        (Effect::HighPassFilter(gain(3.0)), 3.0),
        (Effect::BandPassFilter(gain(0.25)), 0.25),
        (Effect::AllPassFilter(gain(1.0)), 1.0),
        (Effect::LowShelfFilter(gain(7.5)), 7.5),
        (Effect::HighShelfFilter(gain(0.0)), 0.0),
    ]
}

fn ramp() -> Vec<Frame> {
    vec![frame(1.0, -1.0), frame(0.5, 0.25), frame(-3.0, 7.0), frame(1.0e-3, -2.5e4)]
}

fn through<E: EffectRenderTrait>(effect: &mut E, input: &[Frame]) -> Vec<Frame> {
    let mut output = silence(input.len());
    effect.render(input, &mut output);
    output
}

#[test]
fn attenuate_by_two_doubles_both_channels() {
    let input = vec![frame(1.0, 1.0), frame(0.5, -0.5)];
    let mut output = silence(2);
    Attenuate::new(sample(2.0)).render(&input, &mut output);
    assert_eq!(values(&output), vec![(2.0, 2.0), (1.0, -1.0)]);
}

#[test]
fn attenuate_with_negative_gain_renders_silence() {
    let input = vec![frame(1.0, 2.0), frame(0.25, 1.0e10), frame(3.5, 0.0)];
    let mut output = vec![frame(9.0, 9.0); 3];
    let mut effect = Attenuate::new(sample(-5.0));
    assert_eq!(effect.gain().to_bits(), 0);
    effect.render(&input, &mut output);
    assert_eq!(values(&output), vec![(0.0, 0.0), (0.0, 0.0), (0.0, 0.0)]);
    assert_eq!(output, silence(3));
}

#[test]
fn attenuate_with_zero_gain_keeps_the_sign_of_each_sample() {
    let input = vec![frame(-1.0, 2.0)];
    let output = through(&mut Attenuate::new(sample(0.0)), &input);
    assert_eq!(output[0].0.to_bits(), 0x8000_0000);
    assert_eq!(output[0].1.to_bits(), 0);
    assert_eq!(values(&output), vec![(0.0, 0.0)]);
}

#[test]
fn attenuate_multiplies_every_sample_by_its_gain() {
    let gains = [0.0f32, 0.1, 0.5, 1.0, 1.5, 3.0e5, 1.0e-20];
    let input = ramp();
    for g in gains {
        let output = through(&mut Attenuate::new(sample(g)), &input);
        let expected: Vec<(f32, f32)> = values(&input).iter().map(|f| (f.0 * g, f.1 * g)).collect();
        assert_eq!(values(&output), expected);
    }
}

#[test]
fn attenuate_lets_nan_and_infinity_through() {
    let input = vec![frame(f32::NAN, f32::INFINITY), frame(f32::NEG_INFINITY, 1.0)];
    let output = through(&mut Attenuate::new(sample(0.5)), &input);
    assert!(output[0].0.is_nan());
    assert_eq!(output[0].1.to_bits(), 0x7f80_0000);
    assert_eq!(output[1].0.to_bits(), 0xff80_0000);
    assert_eq!(values(&output)[1].1, 0.5);
    let zeroed = through(&mut Attenuate::new(sample(0.0)), &input);
    assert!(zeroed[0].0.is_nan());
    assert!(zeroed[0].1.is_nan());
    assert!(zeroed[1].0.is_nan());
}

#[test]
fn attenuate_new_clamps_the_gain() {
    assert_eq!(Attenuate::new(sample(-5.0)).gain().to_bits(), 0);
    assert_eq!(Attenuate::new(sample(-1.0e-30)).gain().to_bits(), 0);
    assert_eq!(Attenuate::new(sample(f32::NEG_INFINITY)).gain().to_bits(), 0);
    assert_eq!(Attenuate::new(sample(f32::NAN)).gain().to_bits(), 0);
    assert_eq!(Attenuate::new(sample(-0.0)).gain().to_bits(), 0);
    assert_eq!(Attenuate::new(sample(0.0)).gain().to_bits(), 0);
    assert_eq!(Attenuate::new(sample(0.75)).gain().to_bits(), 0.75f32.to_bits());
    assert_eq!(Attenuate::new(sample(4.0)).gain().to_bits(), 4.0f32.to_bits());
    assert_eq!(Attenuate::new(sample(f32::INFINITY)).gain().to_bits(), 0x7f80_0000);
}

#[test]
fn attenuate_set_gain_clamps_the_gain() {
    let mut effect = Attenuate::new(sample(2.0));
    effect.set_gain(sample(-3.0));
    assert_eq!(effect.gain().to_bits(), 0);
    effect.set_gain(sample(1.25));
    assert_eq!(effect.gain().to_bits(), 1.25f32.to_bits());
    effect.set_gain(sample(f32::NAN));
    assert_eq!(effect.gain().to_bits(), 0);
    assert_eq!(effect, Attenuate::new(sample(0.0)));
}

#[test]
fn attenuate_default_has_unit_gain() {
    assert_eq!(Attenuate::default().gain().to_bits(), 1.0f32.to_bits());
    assert_eq!(Attenuate::default(), Attenuate::new(sample(1.0)));
}

#[test]
fn attenuate_clone_is_equal() {
    let effect = Attenuate::new(sample(0.3));
    let copy = effect.clone();
    assert_eq!(copy, effect);
    assert_ne!(copy, Attenuate::new(sample(0.4)));
}

#[test]
fn default_effect_is_attenuate_with_unit_gain() {
    let effect: Fx = Effect::default();
    match &effect {
        Effect::Attenuate(a) => assert_eq!(a.gain().to_bits(), 0x3f80_0000),
        _ => panic!("the default effect attenuates"),
    }
    assert_eq!(effect, Effect::Attenuate(Attenuate::default()));
}

#[test]
fn default_effect_renders_its_input() {
    let mut effect: Fx = Effect::default();
    let input = vec![
        frame(1.0, -1.0),
        frame(0.0, -0.0),
        frame(f32::MAX, f32::MIN_POSITIVE),
        frame(f32::INFINITY, f32::NEG_INFINITY),
        (Sample::from_bits(1), Sample::from_bits(0x807f_ffff)),
        frame(0.1, 1.0e-42),
    ];
    let output = through(&mut effect, &input);
    assert_eq!(output, input);
    let nan = through(&mut effect, &[frame(f32::NAN, 1.0)]);
    assert!(nan[0].0.is_nan());
    assert_eq!(nan[0].1.to_bits(), 0x3f80_0000);
}

#[test]
fn render_fills_every_frame_of_the_output() {
    let input = vec![frame(1.0, 1.0); 64];
    let mut output = vec![frame(-7.0, -7.0); 64];
    let mut effect: Fx = Effect::Attenuate(Attenuate::new(sample(0.5)));
    effect.render(&input, &mut output);
    assert_eq!(output, vec![frame(0.5, 0.5); 64]);
    let mut nothing: Vec<Frame> = Vec::new();
    effect.render(&[], &mut nothing);
    assert!(nothing.is_empty());
}

#[test]
fn effect_renders_as_the_kind_it_holds() {
    let input = ramp();
    for (mut held, g) in one_of_each() {
        let mut direct = gain(g);
        assert_eq!(through(&mut held, &input), through(&mut direct, &input));
        let expected: Vec<(f32, f32)> = values(&input).iter().map(|f| (f.0 * g, f.1 * g)).collect();
        assert_eq!(values(&through(&mut held, &input)), expected);
    }
}

#[test]
fn effect_keeps_its_kind_when_it_renders() {
    let input = ramp();
    for (mut held, _) in one_of_each() {
        let before = held.clone();
        through(&mut held, &input);
        assert_eq!(held, before);
    }
    let mut held: Fx = Effect::Reverb(gain(2.0));
    through(&mut held, &input);
    assert_eq!(held, Effect::Reverb(gain(2.0)));
    assert_ne!(held, Effect::HighPassFilter(gain(2.0)));
    assert_ne!(held, Effect::Reverb(gain(3.0)));
}

#[test]
fn two_buffers_in_a_row_render_as_one() {
    let input = ramp();
    for (whole, _) in one_of_each() {
        let mut parts = whole.clone();
        let mut whole = whole;
        let expected = through(&mut whole, &input);
        let mut got = through(&mut parts, &input[..1]);
        got.extend(through(&mut parts, &input[1..]));
        assert_eq!(got, expected);
        assert_eq!(parts, whole);
    }
}

#[test]
fn effect_names_are_the_names_of_the_kinds() {
    let names: Vec<&str> = one_of_each().iter().map(|e| e.0.name()).collect();
    assert_eq!(
        names,
        vec![
            "Attenuate",
            "Reverb",
            "LowPassFilter",
            "HighPassFilter",
            "BandPassFilter",
            "AllPassFilter",
            "LowShelfFilter",
            "HighShelfFilter",
        ]
    );
}

#[test]
fn effect_clone_and_equality_go_by_kind_and_content() {
    let effect: Fx = Effect::Reverb(gain(0.5));
    assert_eq!(effect.clone(), effect);
    assert_ne!(effect, Effect::Reverb(gain(0.75)));
    assert_ne!(effect, Effect::Attenuate(gain(0.5)));
}

#[test]
fn wrapper_default_is_the_default_effect() {
    let slot: Slot = EffectWrapper::default();
    assert_eq!(slot.0, Effect::default());
    assert_eq!(Slot::display_name(), "Effect Type");
}

#[test]
fn wrapper_stands_for_its_effect() {
    let input = ramp();
    let mut slot: Slot = EffectWrapper(Effect::Attenuate(Attenuate::new(sample(2.0))));
    let mut bare: Fx = Effect::Attenuate(Attenuate::new(sample(2.0)));
    assert_eq!(*slot, bare);
    assert_eq!(slot.name(), "Attenuate");
    let mut output = silence(input.len());
    slot.render(&input, &mut output);
    assert_eq!(output, through(&mut bare, &input));

    *slot = Effect::HighShelfFilter(gain(1.0));
    assert_eq!(slot.0, Effect::HighShelfFilter(gain(1.0)));
    if let Effect::HighShelfFilter(held) = &mut *slot {
        held.set_gain(sample(-2.0));
    }
    assert_eq!(slot, EffectWrapper(Effect::HighShelfFilter(gain(0.0))));
    assert_eq!(slot.name(), "HighShelfFilter");
}
