use tracey::integrator::{radiance_rule, RadianceRule, ScatterKind};
use tracey::render::{pixel_sites, PixelSite};

#[test]
fn exhausted_depth_is_black() {
    assert_eq!(radiance_rule(0, None, false), RadianceRule::Black);
    assert_eq!(radiance_rule(0, Some(ScatterKind::Sampled), true), RadianceRule::Black);
    assert_eq!(radiance_rule(-3, Some(ScatterKind::Specular), false), RadianceRule::Black);
}

#[test]
fn miss_with_depth_one_is_background() {
    assert_eq!(radiance_rule(1, None, false), RadianceRule::Background);
    assert_eq!(radiance_rule(1, None, true), RadianceRule::Background);
    assert_eq!(radiance_rule(20, None, true), RadianceRule::Background);
}

#[test]
fn absorbed_is_emitted_only() {
    assert_eq!(radiance_rule(5, Some(ScatterKind::Absorbed), true), RadianceRule::Emitted);
}

#[test]
fn specular_traces_one_level_deeper() {
    assert_eq!(radiance_rule(5, Some(ScatterKind::Specular), true), RadianceRule::Specular(4));
    assert_eq!(radiance_rule(1, Some(ScatterKind::Specular), false), RadianceRule::Specular(0));
}

#[test]
fn sampled_uses_mixture_only_with_a_light() {
    assert_eq!(radiance_rule(20, Some(ScatterKind::Sampled), true), RadianceRule::MixtureSample(19));
    assert_eq!(radiance_rule(20, Some(ScatterKind::Sampled), false), RadianceRule::MaterialSample(19));
}

#[test]
fn pixel_sites_are_row_major() {
    let sites = pixel_sites(3, 2);
    assert_eq!(sites.len(), 6);
    assert_eq!(sites[0], PixelSite { x: 0, y: 0, up: 2 });
    assert_eq!(sites[2], PixelSite { x: 2, y: 0, up: 2 });
    assert_eq!(sites[3], PixelSite { x: 0, y: 1, up: 1 });
    assert_eq!(sites[5], PixelSite { x: 2, y: 1, up: 1 });
}

#[test]
fn empty_image_has_no_pixels() {
    assert!(pixel_sites(0, 5).is_empty());
    assert!(pixel_sites(5, 0).is_empty());
}
