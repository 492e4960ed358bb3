//! Effects and transforms as filter chains.

use ubereditor::float::Real;
use ubereditor::keyframe::{Interp, Keyframe, KeyframeCurve, Param};
use ubereditor::model::{EffectInstance, Transform2D};
use ubereditor::packs::sort_packs;
use ubereditor::render::{
    clip_vf, clip_vf_layer, clip_vf_sampled, find_effect, format_color, format_float,
    merge_registries, param_expr, render_chain, render_effect, render_effect_at, secs,
    transform_vf, EffectDef, Labels, ParamDef, ParamKind, RenderError,
};
use ubereditor::strmap::StrMap;

fn num(x: f64) -> Real {
    Real { bits: x.to_bits() }
}

fn constant(x: f64) -> Param {
    Param::constant(num(x))
}

fn float_param(key: &str, default: f64, min: f64, max: f64) -> ParamDef {
    ParamDef {
        key: key.into(),
        label: None,
        kind: ParamKind::Float { default: num(default), min: num(min), max: num(max) },
    }
}

fn def(id: &str, ffmpeg: &str, params: Vec<ParamDef>) -> EffectDef {
    EffectDef {
        id: id.into(),
        name: id.into(),
        category: "".into(),
        params,
        ffmpeg: ffmpeg.into(),
        notes: None,
    }
}

/// A registry with the effects that the tests speak of.
fn core_registry() -> Vec<EffectDef> {
    vec![
        def(
            "core.color_correct",
            "eq=brightness={brightness}:contrast={contrast}:saturation={saturation}:gamma={gamma}",
            vec![
                float_param("brightness", 0.0, -1.0, 1.0),
                float_param("contrast", 1.0, 0.0, 2.0),
                float_param("saturation", 1.0, 0.0, 3.0),
                float_param("gamma", 1.0, 0.1, 10.0),
            ],
        ),
        def(
            "core.chroma_key",
            "chromakey=color={key_color}:similarity=0.1",
            vec![ParamDef {
                key: "key_color".into(),
                label: Some("Key".into()),
                kind: ParamKind::Color { default: "#00FF00".into() },
            }],
        ),
        def("core.gaussian_blur", "gblur=sigma={sigma}", vec![float_param("sigma", 5.0, 0.0, 50.0)]),
    ]
}

fn inst(id: &str, params: &[(&str, f64)], colors: &[(&str, &str)]) -> EffectInstance {
    let mut p = StrMap::new();
    for (k, v) in params {
        p.insert(k.to_string(), constant(*v));
    }
    let mut c = StrMap::new();
    for (k, v) in colors {
        c.insert(k.to_string(), v.to_string());
    }
    EffectInstance { effect_id: id.into(), enabled: true, params: p, color_params: c }
}

#[test]
fn render_with_defaults_and_overrides() {
    let reg = core_registry();
    let def = find_effect(&reg, "core.color_correct").unwrap();
    // only brightness changed; the rest use defaults
    let e = inst("core.color_correct", &[("brightness", 0.25)], &[]);
    let s = render_effect(def, &e, &mut Labels::new());
    assert_eq!(s, "eq=brightness=0.25:contrast=1:saturation=1:gamma=1");
}

#[test]
fn float_params_are_clamped() {
    let reg = core_registry();
    let def = find_effect(&reg, "core.color_correct").unwrap();
    let e = inst("core.color_correct", &[("brightness", 99.0)], &[]);
    assert!(render_effect(def, &e, &mut Labels::new()).contains("brightness=1"));
}

#[test]
fn color_param_formats_and_falls_back() {
    let reg = core_registry();
    let def = find_effect(&reg, "core.chroma_key").unwrap();
    let e = inst("core.chroma_key", &[], &[("key_color", "#12abEF")]);
    assert!(render_effect(def, &e, &mut Labels::new()).contains("color=0x12ABEF"));
    // corrupt color → manifest default
    let bad = inst("core.chroma_key", &[], &[("key_color", "green;rm -rf")]);
    assert!(render_effect(def, &bad, &mut Labels::new()).contains("color=0x00FF00"));
}

#[test]
fn transform_noop_is_none_and_order_is_crop_scale_rotate_flip() {
    let mut labels = Labels::new();
    assert_eq!(transform_vf(&Transform2D::default(), None, &mut labels), None);

    let mut t = Transform2D::default();
    t.crop.0 = constant(0.25); // 25% from the left
    t.scale = (constant(0.5), constant(0.5));
    t.rotation = constant(180.0);
    t.flip_h = true;
    let vf = transform_vf(&t, None, &mut labels).unwrap();
    let crop_pos = vf.find("crop=").unwrap();
    let scale_pos = vf.find("scale=").unwrap();
    let rot_pos = vf.find("rotate=").unwrap();
    let flip_pos = vf.find("hflip").unwrap();
    assert!(crop_pos < scale_pos && scale_pos < rot_pos && rot_pos < flip_pos, "{vf}");
    assert!(vf.contains("rotate=3.1416"), "180° in radians: {vf}");
    assert!(vf.contains("x=iw*0.25"), "{vf}");
}

#[test]
fn clip_vf_combines_effects_then_transform() {
    let reg = core_registry();
    let fx = vec![inst("core.gaussian_blur", &[("sigma", 3.0)], &[])];
    let mut t = Transform2D::default();
    t.flip_v = true;
    let vf = clip_vf(&reg, &fx, &t, None, &mut Labels::new()).unwrap();
    assert!(vf.starts_with("gblur"), "{vf}");
    assert!(vf.ends_with("vflip"), "{vf}");
    assert_eq!(vf, "gblur=sigma=3,vflip");
}

#[test]
fn chain_joins_enabled_only() {
    let reg = core_registry();
    let mut labels = Labels::new();
    let mut off = inst("core.gaussian_blur", &[("sigma", 5.0)], &[]);
    off.enabled = false;
    let on = inst("core.color_correct", &[("saturation", 1.5)], &[]);
    let chain = render_chain(&reg, &vec![off, on], &mut labels).unwrap();
    assert!(!chain.contains("gblur"));
    assert!(chain.contains("saturation=1.5"));
    assert!(render_chain(&reg, &vec![], &mut labels).is_none());
    // unknown effect is ignored without breaking
    let unknown = inst("user.nonexistent", &[], &[]);
    assert!(render_chain(&reg, &vec![unknown], &mut labels).is_none());
}

#[test]
fn user_packs_win_over_the_core() {
    let packs = vec![
        def("user.vhs", "noise=alls=20", vec![]),
        def("core.gaussian_blur", "gblur=sigma=99", vec![]),
    ];
    let packs = sort_packs(packs);
    let ids: Vec<&str> = packs.iter().map(|d| d.id.as_str()).collect();
    assert_eq!(ids, ["core.gaussian_blur", "user.vhs"]);
    let merged = merge_registries(core_registry(), packs);
    assert_eq!(merged.len(), 4);
    assert_eq!(find_effect(&merged, "core.gaussian_blur").unwrap().ffmpeg, "gblur=sigma=99");
    assert!(find_effect(&merged, "user.vhs").is_some());
}

#[test]
fn packs_of_one_name_keep_their_order() {
    let packs = vec![def("b", "1", vec![]), def("a", "2", vec![]), def("b", "3", vec![])];
    let sorted = sort_packs(packs);
    let texts: Vec<&str> = sorted.iter().map(|d| d.ffmpeg.as_str()).collect();
    assert_eq!(texts, ["2", "1", "3"]);
}

#[test]
fn labels_keep_instances_of_an_effect_apart() {
    let reg = vec![def("x", "split[a{u}][b{u}];[a{u}][b{u}]overlay", vec![])];
    let mut labels = Labels::new();
    let fx = vec![inst("x", &[], &[]), inst("x", &[], &[])];
    let chain = render_chain(&reg, &fx, &mut labels).unwrap();
    let parts: Vec<&str> = chain.split(',').collect();
    assert_eq!(parts.len(), 2);
    assert_ne!(parts[0], parts[1]);
    assert_eq!(labels.effects, 2);
}

#[test]
fn numbers_are_short_and_times_are_long() {
    assert_eq!(format_float(num(1.0)), "1");
    assert_eq!(format_float(num(0.25)), "0.25");
    assert_eq!(format_float(num(1.0 / 3.0)), "0.3333");
    assert_eq!(format_float(num(100.0)), "100");
    assert_eq!(secs(1_500_000), "1.500000");
    assert_eq!(secs(-1), "-0.000001");
    assert_eq!(format_color("#12abEF").unwrap(), "0x12ABEF");
    assert_eq!(format_color("#12ab"), None);
    assert_eq!(format_color("12abEF0"), None);
    assert_eq!(RenderError::Manifest("bad".into()).to_text(), "invalid manifest: bad");
}

#[test]
fn curves_become_expressions() {
    let curve = Param::Curve(KeyframeCurve::new(vec![
        Keyframe { t: 0, value: num(0.0), interp: Interp::Linear },
        Keyframe { t: 2_000_000, value: num(1.0), interp: Interp::Hold },
        Keyframe { t: 3_000_000, value: num(0.5), interp: Interp::Linear },
    ]));
    assert_eq!(
        param_expr(&curve, "t"),
        "if(lt(t,0.000000),0,if(lt(t,2.000000),(0+(1)*(t-0.000000)/(2.000000)),if(lt(t,3.000000),1,0.5)))"
    );
    assert_eq!(param_expr(&constant(2.5), "t"), "2.5");
    assert_eq!(param_expr(&Param::Curve(KeyframeCurve { keys: vec![] }), "t"), "0");
}

#[test]
fn a_paused_frame_samples_the_curve() {
    let reg = core_registry();
    let mut params = StrMap::new();
    params.insert(
        "sigma".into(),
        Param::Curve(KeyframeCurve::new(vec![
            Keyframe { t: 0, value: num(0.0), interp: Interp::Linear },
            Keyframe { t: 4_000_000, value: num(8.0), interp: Interp::Linear },
        ])),
    );
    let fx = vec![EffectInstance {
        effect_id: "core.gaussian_blur".into(),
        enabled: true,
        params,
        color_params: StrMap::new(),
    }];
    let t = Transform2D::default();
    let mut labels = Labels::new();
    assert_eq!(
        clip_vf_sampled(&reg, &fx, &t, None, 1_000_000, &mut labels).unwrap(),
        "gblur=sigma=2"
    );
    assert_eq!(render_effect_at(&reg[2], &fx[0], 3_000_000, &mut labels), "gblur=sigma=6");
    let layer = clip_vf_layer(&reg, &fx, &t, Some((640, 360)), "(t-1.000000)", &mut labels);
    assert_eq!(layer.unwrap(), "gblur=sigma=0");
}

#[test]
fn a_still_clip_looks_the_same_in_a_frame() {
    let registry = core_registry();
    let mut params = StrMap::new();
    params.insert("brightness".to_string(), constant(0.25));
    let effects = vec![EffectInstance {
        effect_id: "core.color_correct".into(),
        enabled: true,
        params,
        color_params: StrMap::new(),
    }];
    let transform = Transform2D {
        scale: (constant(0.5), constant(0.5)),
        rotation: constant(90.0),
        ..Transform2D::default()
    };
    let exported = clip_vf(&registry, &effects, &transform, None, &mut Labels::new());
    for at in [0, 1_234_567, 9_000_000] {
        let frame =
            clip_vf_sampled(&registry, &effects, &transform, None, at, &mut Labels::new());
        assert_eq!(frame, exported);
    }
    assert!(exported.unwrap().starts_with("eq=brightness=0.25"));
}
