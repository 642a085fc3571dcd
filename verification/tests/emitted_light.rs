use voxel_terrain::terrain::lighting::emitted_light::EmittedLight;

#[test]
fn emitted_light_emitted_light_from_and_as_rgb() {
    let r = 1;
    let g = 2;
    let b = 3;
    let emitted_light = EmittedLight::from_rgb(r, g, b);
    assert_eq!((r, g, b), emitted_light.as_rgb())
}

#[test]
fn emitted_light_emitted_light_less() {
    {
        let a = EmittedLight::from_rgb(1, 0, 1);
        let b = EmittedLight::from_rgb(0, 1, 0);
        assert_eq!(0b0000_1111_0000, EmittedLight::less(a, b));
    }

    {
        let a = EmittedLight::from_rgb(0, 0, 0);
        let b = EmittedLight::from_rgb(15, 15, 15);
        assert_eq!(0b1111_1111_1111, EmittedLight::less(a, b));
    }

    {
        let a = EmittedLight::from_rgb(0, 1, 2);
        let b = EmittedLight::from_rgb(0, 1, 2);
        assert_eq!(0b0000_0000_0000, EmittedLight::less(a, b));
    }
}

#[test]
fn emitted_light_emitted_light_max() {
    let a = EmittedLight::from_rgb(15, 10, 5);
    let b = EmittedLight::from_rgb(5, 10, 15);
    assert_eq!((15, 10, 15), EmittedLight::max(a, b).as_rgb())
}

#[test]
fn emitted_light_emitted_light_decrement_and_saturate() {
    let x = EmittedLight::from_rgb(0, 1, 2);
    assert_eq!((0, 0, 1), x.decrement_and_saturate().as_rgb())
}
