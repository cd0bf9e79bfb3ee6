use sound_effects::settings::debugging::DebuggingSettings;

#[test]
fn debugging_settings_default() {
    let settings = DebuggingSettings::default();
    assert!(settings.show_physics);
    assert!(settings.show_bounds);
    assert!(!settings.show_tbn);
    assert!(settings.show_light_bounds);
    assert!(settings.show_camera_bounds);
    assert_eq!(settings.pictogram_size.to_bits(), 0.33f32.to_bits());
    assert_eq!(settings.clone(), settings);
}

#[test]
fn debugging_settings_describe_the_pictogram_size() {
    assert_eq!(
        DebuggingSettings::pictogram_size_description(),
        "Size of pictograms in meters. It is used for objects like lights."
    );
}
