use raytracer_rust::path::{Encounter, Path};

fn run(max_bounces: usize, met: &[Encounter]) -> Path {
    let mut path = Path::new(max_bounces);
    for encounter in met {
        path = path.step(*encounter);
    }
    path
}

#[test]
fn path_without_bounces_is_dark() {
    assert_eq!(Path::new(0), Path::Dark);
    assert!(!Path::new(0).is_tracing());
}

#[test]
fn new_path_has_its_whole_budget() {
    assert_eq!(Path::new(16), Path::Tracing(16));
    assert!(Path::new(16).is_tracing());
}

#[test]
fn terminal_surface_lights_the_path() {
    assert_eq!(run(1, &[Encounter::Terminal]), Path::Lit);
    assert_eq!(
        run(3, &[Encounter::Scatter, Encounter::Scatter, Encounter::Terminal]),
        Path::Lit
    );
}

#[test]
fn escaping_ray_leaves_the_path_dark() {
    assert_eq!(run(4, &[Encounter::Escape]), Path::Dark);
    assert_eq!(run(4, &[Encounter::Scatter, Encounter::Escape]), Path::Dark);
}

#[test]
fn scattering_spends_one_bounce() {
    assert_eq!(run(4, &[Encounter::Scatter]), Path::Tracing(3));
    assert_eq!(
        run(4, &[Encounter::Scatter, Encounter::Scatter]),
        Path::Tracing(2)
    );
}

#[test]
fn spent_budget_leaves_the_path_dark() {
    assert_eq!(run(1, &[Encounter::Scatter]), Path::Dark);
    assert_eq!(
        run(3, &[Encounter::Scatter, Encounter::Scatter, Encounter::Scatter]),
        Path::Dark
    );
}

#[test]
fn terminal_surface_beyond_the_budget_is_not_reached() {
    assert_eq!(
        run(2, &[Encounter::Scatter, Encounter::Scatter, Encounter::Terminal]),
        Path::Dark
    );
}

#[test]
fn ended_path_stays_as_it_is() {
    for met in [Encounter::Escape, Encounter::Terminal, Encounter::Scatter] {
        assert_eq!(Path::Lit.step(met), Path::Lit);
        assert_eq!(Path::Dark.step(met), Path::Dark);
    }
}

#[test]
fn path_ends_within_its_budget() {
    for max_bounces in 0..6 {
        let met = vec![Encounter::Scatter; max_bounces];
        assert!(!run(max_bounces, &met).is_tracing());
    }
}
