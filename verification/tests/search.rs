use joy_of_mixing::{
    closest_mixed_color, find_color_mix, mix_dep_order, recipe_is_finite, try_find_color_mix, Color, ColorBounds,
    ColorMap, Label, MixDisplayInfo, MixSearchError, MixedColor,
};

fn rgb(v: u32) -> Color {
    Color::from(v)
}

fn basic() -> Vec<Color> {
    Color::basic_colors().iter().map(|(c, _)| *c).collect()
}

fn mix_all(parts: &[Color]) -> Color {
    let mut m = MixedColor::default();
    for p in parts {
        m.mix(p);
    }
    m.result()
}

#[test]
fn closest_mix_without_filter_picks_nearest_mix() {
    let colors = [rgb(0xff0000), rgb(0x0000ff)];
    // red + blue gives 0xfe00fe, which is nearer to 0xf000f0 than either colour
    let (c, parts) = rgb(0xf000f0).find_closest_mix(&colors, 2, |_| true);
    assert_eq!(c, rgb(0xfe00fe));
    assert_eq!(parts, vec![rgb(0xff0000), rgb(0x0000ff)]);
}

#[test]
fn closest_mix_prefers_fewer_parts_on_ties() {
    // red alone and red + red give the same colour; one part is tried first
    let colors = [rgb(0xff0000), rgb(0x00ff00)];
    let (c, parts) = rgb(0xff0000).find_closest_mix(&colors, 3, |_| true);
    assert_eq!(c, rgb(0xff0000));
    assert_eq!(parts, vec![rgb(0xff0000)]);
}

#[test]
fn closest_mix_respects_filter() {
    let colors = [rgb(0xff0000), rgb(0x0000ff)];
    let target = rgb(0xf000f0);
    let (c, parts) = target
        .find_closest_mix(&colors, 2, |c| c != rgb(0xfe00fe));
    assert_eq!(c, rgb(0xff0000));
    assert_eq!(parts, vec![rgb(0xff0000)]);
    // with nothing accepted there is no closest mix
    assert_eq!(target.closest_accepted_mix(&colors, 2, |_| false), None);
    assert_eq!(target.closest_accepted_mix(&[], 2, |_| true), None);
    assert_eq!(target.closest_accepted_mix(&colors, 0, |_| true), None);
    assert_eq!(
        target.closest_accepted_mix(&colors, 2, |c| c != rgb(0xfe00fe)),
        Some((rgb(0xff0000), vec![rgb(0xff0000)]))
    );
}

#[test]
fn out_of_gamut_target() {
    // nothing can be brighter than pure white from these dyes
    assert!(find_color_mix(&basic(), rgb(0xffffff), 10, false, 8).is_none());
    let r = try_find_color_mix(&basic(), rgb(0xffffff), 10, false, 8);
    assert_eq!(r.err(), Some(MixSearchError::OutOfGamut));
    assert!(find_color_mix(&basic()[..3], rgb(0x808080), 10, false, 8).is_none());
    let r = try_find_color_mix(&basic()[..3], rgb(0x808080), 10, false, 8);
    assert_eq!(r.err(), Some(MixSearchError::OutOfGamut));
}

#[test]
fn recipes_reproduce_their_colors() {
    let base = basic();
    let target = rgb(0x9b9b9b);
    let map = find_color_mix(&base, target, 10, false, 8).unwrap();
    assert!(!map.is_empty());
    for c in map.keys() {
        let parts = map.get(&c).unwrap();
        assert!(!parts.is_empty() && parts.len() <= 8);
        assert_eq!(mix_all(parts), c);
    }
    let shown = closest_mixed_color(&map, &target).unwrap();
    assert!(map.contains_key(&shown));
    for c in map.keys() {
        assert!(shown.distance_squared(&target) <= c.distance_squared(&target));
    }
}

#[test]
fn zero_iterations_find_nothing() {
    let map = find_color_mix(&basic(), rgb(0x9b9b9b), 0, false, 8).unwrap();
    assert!(map.is_empty());
    assert_eq!(closest_mixed_color(&map, &rgb(0x9b9b9b)), None);
}

#[test]
fn a_basic_color_is_mixed_from_itself() {
    let base = basic();
    // grey lies inside the dyes' hull; mixing stops as soon as it is reached
    let target = rgb(0x9D9D97);
    let map = find_color_mix(&base, target, 10, false, 8).unwrap();
    assert!(map.contains_key(&target));
    assert_eq!(closest_mixed_color(&map, &target), Some(target));
}

#[test]
fn using_all_colors_gives_consistent_recipes() {
    let base = basic();
    let target = rgb(0x6a4c9c);
    let map = find_color_mix(&base, target, 3, true, 3).unwrap();
    for c in map.keys() {
        let parts = map.get(&c).unwrap();
        for p in parts {
            assert!(base.contains(p));
        }
        assert_eq!(mix_all(parts), c);
    }
}

#[test]
fn smallest_bounds_contain_the_target() {
    let base = basic();
    let target = rgb(0x9b9b9b);
    let mut best: Option<(i64, [Color; 4])> = None;
    for a in 0..16 {
        for b in a + 1..16 {
            for c in b + 1..16 {
                for d in c + 1..16 {
                    let bounds = ColorBounds([base[a], base[b], base[c], base[d]]);
                    if bounds.contains(&target) {
                        let v = bounds.volume_6();
                        if best.map_or(true, |(bv, _)| v < bv) {
                            best = Some((v, bounds.0));
                        }
                    }
                }
            }
        }
    }
    assert!(best.is_some());
}

#[test]
fn dependency_order_lists_parts_first() {
    let a = rgb(0x101010);
    let b = rgb(0x202020);
    let x = rgb(0x303030);
    let y = rgb(0x404040);
    let mut mixes: ColorMap<Vec<Color>> = ColorMap::new();
    mixes.insert(x, vec![a, a, b]);
    mixes.insert(y, vec![x, b, b, b, a]);
    let mut names: ColorMap<Label> = ColorMap::new();
    names.insert(a, Label::Named("a".to_string()));
    names.insert(b, Label::Named("b".to_string()));
    names.insert(y, Label::Named("result".to_string()));
    assert!(recipe_is_finite(&mixes, &y));
    let mut counter = 0usize;
    let mut display: Vec<MixDisplayInfo> = Vec::new();
    mix_dep_order(y, &mixes, &mut names, &mut counter, &mut display);
    assert_eq!(counter, 1);
    assert!(matches!(names.get(&x), Some(Label::Temp(0))));
    assert_eq!(display.len(), 2);
    assert_eq!(display[0].color, x);
    assert_eq!(display[0].mix, vec![(b, 1), (a, 2)]);
    assert_eq!(display[1].color, y);
    assert_eq!(display[1].mix, vec![(x, 1), (a, 1), (b, 3)]);
    for info in &display {
        assert!(names.contains_key(&info.color));
        for (part, _) in &info.mix {
            assert!(names.contains_key(part));
        }
    }
}

#[test]
fn shared_parts_are_listed_each_time() {
    let a = rgb(0x101010);
    let b = rgb(0x202020);
    let x = rgb(0x303030);
    let y = rgb(0x404040);
    let z = rgb(0x505050);
    let mut mixes: ColorMap<Vec<Color>> = ColorMap::new();
    mixes.insert(x, vec![a, b]);
    mixes.insert(y, vec![x, a]);
    mixes.insert(z, vec![y, x, x]);
    let mut names: ColorMap<Label> = ColorMap::new();
    names.insert(a, Label::Named("a".to_string()));
    names.insert(b, Label::Named("b".to_string()));
    let mut counter = 5usize;
    let mut display: Vec<MixDisplayInfo> = Vec::new();
    mix_dep_order(z, &mixes, &mut names, &mut counter, &mut display);
    let order: Vec<Color> = display.iter().map(|d| d.color).collect();
    assert_eq!(order, vec![x, y, x, z]);
    assert_eq!(counter, 8);
    assert!(matches!(names.get(&x), Some(Label::Temp(5))));
    assert!(matches!(names.get(&y), Some(Label::Temp(6))));
    assert!(matches!(names.get(&z), Some(Label::Temp(7))));
    assert_eq!(display[3].mix, vec![(y, 1), (x, 2)]);
}

#[test]
fn a_color_without_recipe_lists_nothing() {
    let mixes: ColorMap<Vec<Color>> = ColorMap::new();
    let mut names: ColorMap<Label> = ColorMap::new();
    let mut counter = 0usize;
    let mut display: Vec<MixDisplayInfo> = Vec::new();
    mix_dep_order(rgb(1), &mixes, &mut names, &mut counter, &mut display);
    assert!(display.is_empty());
    assert_eq!(counter, 0);
    assert!(names.is_empty());
}

#[test]
fn cyclic_recipes_are_detected() {
    let a = rgb(0x101010);
    let mut mixes: ColorMap<Vec<Color>> = ColorMap::new();
    mixes.insert(a, vec![a]);
    assert!(!recipe_is_finite(&mixes, &a));
    assert!(recipe_is_finite(&mixes, &rgb(0x202020)));
}

#[test]
fn color_map_replaces_values() {
    let mut m: ColorMap<u32> = ColorMap::new();
    assert!(m.is_empty());
    m.insert(rgb(1), 10);
    m.insert(rgb(2), 20);
    m.insert(rgb(1), 11);
    assert_eq!(m.len(), 2);
    assert_eq!(m.get(&rgb(1)), Some(&11));
    assert_eq!(m.get(&rgb(2)), Some(&20));
    assert_eq!(m.get(&rgb(3)), None);
    assert_eq!(m.keys(), vec![rgb(1), rgb(2)]);
}

#[test]
fn long_recipe_chain_is_finite() {
    // each colour is mixed from the one before; the walk is as long as the map
    let mut mixes: ColorMap<Vec<Color>> = ColorMap::new();
    for i in 1..20u32 {
        mixes.insert(rgb(i), vec![rgb(i - 1), rgb(i - 1)]);
    }
    assert!(recipe_is_finite(&mixes, &rgb(19)));
    // closing the chain into a loop makes it endless
    mixes.insert(rgb(0), vec![rgb(19)]);
    assert!(!recipe_is_finite(&mixes, &rgb(19)));
    assert!(!recipe_is_finite(&mixes, &rgb(5)));
}

#[test]
fn no_parts_allowed_means_no_acceptable_mix() {
    let r = try_find_color_mix(&basic(), rgb(0x9b9b9b), 10, false, 0);
    assert_eq!(r.err(), Some(MixSearchError::NoAcceptableMix));
    // with no step to take there is nothing to accept either
    assert!(try_find_color_mix(&basic(), rgb(0x9b9b9b), 0, false, 0).unwrap().is_empty());
}

#[test]
fn more_parts_are_never_farther() {
    let colors = [rgb(0xB02E26), rgb(0x3C44AA), rgb(0xFED83D), rgb(0x1D1D21)];
    let target = rgb(0x6a4c9c);
    let mut last = u32::MAX;
    for k in 1..5 {
        let (c, parts) = target.find_closest_mix(&colors, k, |_| true);
        assert!(parts.len() <= k);
        let d = c.distance_squared(&target);
        assert!(d <= last);
        last = d;
    }
}

#[test]
fn closest_mixed_color_takes_first_of_equals() {
    let target = rgb(0x808080);
    let mut mixes: ColorMap<Vec<Color>> = ColorMap::new();
    mixes.insert(rgb(0x808090), vec![]);
    mixes.insert(rgb(0x808070), vec![]);
    mixes.insert(rgb(0x8080a0), vec![]);
    assert_eq!(closest_mixed_color(&mixes, &target), Some(rgb(0x808090)));
    let mut other: ColorMap<Vec<Color>> = ColorMap::new();
    other.insert(rgb(0x808070), vec![]);
    other.insert(rgb(0x808090), vec![]);
    assert_eq!(closest_mixed_color(&other, &target), Some(rgb(0x808070)));
}
