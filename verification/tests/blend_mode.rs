use wiggles::blend_mode::BlendMode;

#[test]
fn blend_modes_round_trip_through_picker_names() {
    for m in [BlendMode::Add, BlendMode::Multiply, BlendMode::Max] {
        assert_eq!(BlendMode::from_picker(m.to_picker()), Ok(m));
    }
    assert_eq!(BlendMode::Multiply.to_picker(), "mult");
    assert_eq!(BlendMode::from_picker("multiply"), Err(()));
}
