//! The model, its checks and its errors.

use ubereditor::action::{apply, Action};
use ubereditor::error::UeError;
use ubereditor::float::Real;
use ubereditor::ident::Id;
use ubereditor::keyframe::{Interp, Keyframe, KeyframeCurve, Param};
use ubereditor::model::{check_schema, Clip, Project, Track, TrackKind, SCHEMA_VERSION};
use ubereditor::validate::validate;

fn num(x: f64) -> Real {
    Real { bits: x.to_bits() }
}

fn float(x: Real) -> f64 {
    f64::from_bits(x.bits)
}

#[test]
fn collision_detection() {
    let mut t = Track::new(TrackKind::Video, "V1");
    let a = Id::new();
    t.clips.push(Clip::new_media(a, 0, 1_000_000, 0)); // [0, 1s)
    assert!(t.collides(500_000, 1_000_000, None));
    assert!(!t.collides(1_000_000, 1_000_000, None)); // exactly adjacent does not collide
    let id = t.clips[0].id;
    assert!(!t.collides(0, 1_000_000, Some(id))); // leaving itself out
}

#[test]
fn newer_schemas_are_rejected() {
    assert!(check_schema(SCHEMA_VERSION).is_ok());
    assert!(matches!(check_schema(999), Err(UeError::SchemaVersion(999, SCHEMA_VERSION))));
}

#[test]
fn identifiers_are_ulids() {
    let a = Id::new();
    assert_ne!(a, Id::new());
    assert_eq!(a.to_text(), ulid::Ulid(a.value).to_string());
    assert_eq!(a.to_text().len(), 26);
}

#[test]
fn an_action_gives_its_inverse() {
    let mut p = Project::new("Before");
    let inverse = apply(&mut p, Action::SetProjectName { name: "After".into() }).unwrap();
    assert_eq!(p.name, "After");
    assert_eq!(inverse, Action::SetProjectName { name: "Before".into() });
    let nowhere = Id::new();
    let before = p.clone();
    let r = apply(&mut p, Action::RemoveClip { clip_id: nowhere });
    assert!(matches!(r, Err(UeError::NotFound(_))));
    assert_eq!(p, before);
}

#[test]
fn curves_run_from_key_to_key() {
    let key = |t: i64, value: f64, interp: Interp| Keyframe { t, value: num(value), interp };
    let p = Param::Curve(KeyframeCurve::new(vec![
        key(0, 0.0, Interp::Linear),
        key(100, 10.0, Interp::Hold),
        key(200, 20.0, Interp::Smooth),
        key(300, 40.0, Interp::Linear),
    ]));
    assert_eq!(float(p.eval(-5)), 0.0);
    assert_eq!(float(p.eval(50)), 5.0);
    assert_eq!(float(p.eval(150)), 10.0);
    assert_eq!(float(p.eval(250)), 30.0);
    assert_eq!(float(p.eval(999)), 40.0);
    let (l, r) = p.split(50);
    assert_eq!(float(l.eval(50)), float(r.eval(0)));
}

#[test]
fn a_new_project_is_sound() {
    let p = Project::new("Demo");
    assert!(validate(&p).is_empty());
    assert_eq!(p.schema_version, SCHEMA_VERSION);
    let mut broken = p.clone();
    broken.active_sequence = Id::new();
    assert!(!validate(&broken).is_empty());
}
