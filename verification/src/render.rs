//! Effects and transforms of clips as ffmpeg filter chains.

use vstd::prelude::*;

use crate::decimal;
use crate::decimal::fixed;
use crate::float::Real;
use crate::keyframe::{Interp, Keyframe, Param, ParamV};
use crate::model::{EffectInstance, EffectV, Transform2D, TransformV};
use crate::seqs;
use crate::seqs::{duplicate_text, Duplicate};
use crate::model;
use crate::strmap;
use crate::text;
use crate::text::{
    chars_of, contains_text, copy_text, int_to_text, join, nat_to_text, push_text, replace_all,
    same_text, trim_tail,
};
use crate::time;
use crate::time::{max2, minus, TimeUs};

verus! {

/// One ten-thousandth.
pub const TINY_BITS: u64 = 0x3f1a_36e2_eb1c_432d;

/// 0.49
pub const CROP_LIMIT_BITS: u64 = 0x3fdf_5c28_f5c2_8f5c;

/// 0.01
pub const SCALE_LIMIT_BITS: u64 = 0x3f84_7ae1_47ae_147b;

/// 0.999
pub const OPAQUE_BITS: u64 = 0x3fef_f7ce_d916_872b;

/// One degree in radians.
pub const DEGREE_BITS: u64 = 0x3f91_df46_a252_9d39;

/// Why an effect cannot be used.
#[derive(Debug)]
pub enum RenderError {
    Manifest(String),
}

impl RenderError {
    /// The error in words.
    pub open spec fn message(self) -> Seq<char> {
        match self {
            RenderError::Manifest(s) => "invalid manifest: "@ + s@,
        }
    }

    /// The error in words.
    pub fn to_text(&self) -> (r: String)
        ensures
            r@ == self.message(),
    {
        match self {
            RenderError::Manifest(s) => {
                let mut r: String = copy_text("invalid manifest: ");
                r.append(s.as_str());
                r
            },
        }
    }
}

// ---- numbers and colours ----

/// A number with at most four decimals and no zeros behind.
pub open spec fn float_text(x: Real) -> Seq<char> {
    text::cut_tail(text::cut_tail(decimal::fixed_text(x, 4), '0'), '.')
}

/// Writes a number with at most four decimals and no zeros behind.
pub fn format_float(x: Real) -> (s: String)
    ensures
        s@ == float_text(x),
{
    let all: String = fixed(x, 4);
    let short: String = trim_tail(all.as_str(), '0');
    trim_tail(short.as_str(), '.')
}

/// A time in seconds.
pub open spec fn in_seconds(t: TimeUs) -> Real {
    Real::of(t as int).over(Real::of(1_000_000))
}

/// A time in seconds with six decimals.
pub open spec fn secs_text(t: TimeUs) -> Seq<char> {
    decimal::fixed_text(in_seconds(t), 6)
}

/// Writes a time in seconds with six decimals.
pub fn secs(t: TimeUs) -> (s: String)
    ensures
        s@ == secs_text(t),
{
    fixed(Real::from_int(t).div(Real::from_int(1_000_000)), 6)
}

/// Whether a character is a digit in base sixteen.
pub open spec fn is_hex(c: char) -> bool {
    '0' <= c <= '9' || 'a' <= c <= 'f' || 'A' <= c <= 'F'
}

/// A hexadecimal digit in upper case.
pub open spec fn upper_hex(c: char) -> char {
    if 'a' <= c <= 'f' {
        ((c as int) - 32) as char
    } else {
        c
    }
}

/// A colour as ffmpeg reads it, from "#rrggbb".
pub open spec fn color_text(hex: Seq<char>) -> Option<Seq<char>> {
    if hex.len() == 7 && hex[0] == '#' && forall|i: int| 1 <= i < 7 ==> is_hex(#[trigger] hex[i]) {
        Some("0x"@ + hex.skip(1).map_values(|c: char| upper_hex(c)))
    } else {
        None
    }
}

fn raise_hex(c: char) -> (r: char)
    requires
        is_hex(c),
    ensures
        r == upper_hex(c),
{
    match c {
        'a' => 'A',
        'b' => 'B',
        'c' => 'C',
        'd' => 'D',
        'e' => 'E',
        'f' => 'F',
        _ => c,
    }
}

/// Writes a colour as ffmpeg reads it; `None` for what is no "#rrggbb".
pub fn format_color(hex: &str) -> (r: Option<String>)
    ensures
        match color_text(hex@) {
            Some(x) => r is Some && r->Some_0@ == x,
            None => r is None,
        },
{
    let v: Vec<char> = chars_of(hex);
    if v.len() != 7 || v[0] != '#' {
        return None;
    }
    let ghost upper = hex@.skip(1).map_values(|c: char| upper_hex(c));
    let mut r: String = copy_text("0x");
    let mut i: usize = 1;
    assert(upper.take(0) =~= Seq::<char>::empty());
    assert("0x"@ + Seq::<char>::empty() =~= "0x"@);
    while i < 7
        invariant
            1 <= i <= 7,
            v.len() == 7,
            v@ == hex@,
            upper == hex@.skip(1).map_values(|c: char| upper_hex(c)),
            forall|k: int| 1 <= k < i ==> is_hex(#[trigger] hex@[k]),
            r@ == "0x"@ + upper.take(i - 1),
        decreases 7 - i,
    {
        let c: char = v[i];
        let ok: bool = ('0' <= c && c <= '9') || ('a' <= c && c <= 'f') || ('A' <= c && c <= 'F');
        if !ok {
            assert(!is_hex(hex@[i as int]));
            return None;
        }
        let ghost before = r@;
        r.push(raise_hex(c));
        proof {
            assert(upper[i - 1] == upper_hex(hex@[i as int]));
            assert(upper.take(i as int) =~= upper.take(i - 1).push(upper[i - 1]));
            assert(("0x"@ + upper.take(i - 1)).push(upper[i - 1]) =~= "0x"@ + upper.take(i as int));
        }
        i = i + 1;
    }
    assert(upper.take(6) =~= upper);
    Some(r)
}

// ---- definitions of effects ----

/// What a parameter of an effect takes.
#[allow(inconsistent_fields)]
#[derive(Debug)]
pub enum ParamKind {
    Float { default: Real, min: Real, max: Real },
    /// A colour as "#rrggbb".
    Color { default: String },
}

/// The contents of a `ParamKind`.
#[allow(inconsistent_fields)]
#[verifier::ext_equal]
pub enum KindV {
    Float { default: Real, min: Real, max: Real },
    Color { default: Seq<char> },
}

impl View for ParamKind {
    type V = KindV;

    open spec fn view(&self) -> KindV {
        match self {
            ParamKind::Float { default, min, max } => KindV::Float {
                default: *default,
                min: *min,
                max: *max,
            },
            ParamKind::Color { default } => KindV::Color { default: default@ },
        }
    }
}

impl Duplicate for ParamKind {
    fn duplicate(&self) -> (r: ParamKind) {
        match self {
            ParamKind::Float { default, min, max } => ParamKind::Float {
                default: *default,
                min: *min,
                max: *max,
            },
            ParamKind::Color { default } => ParamKind::Color { default: default.clone() },
        }
    }
}

/// A parameter of an effect.
#[derive(Debug)]
pub struct ParamDef {
    pub key: String,
    pub label: Option<String>,
    pub kind: ParamKind,
}

/// The contents of a `ParamDef`.
#[verifier::ext_equal]
pub struct ParamDefV {
    pub key: Seq<char>,
    pub label: Option<Seq<char>>,
    pub kind: KindV,
}

impl View for ParamDef {
    type V = ParamDefV;

    open spec fn view(&self) -> ParamDefV {
        ParamDefV { key: self.key@, label: model::opt_text(self.label), kind: self.kind@ }
    }
}

impl Duplicate for ParamDef {
    fn duplicate(&self) -> (r: ParamDef) {
        ParamDef {
            key: self.key.clone(),
            label: duplicate_text(&self.label),
            kind: self.kind.duplicate(),
        }
    }
}

/// An effect: its parameters and the template of its filter chain, with the
/// keys in braces.
#[derive(Debug)]
pub struct EffectDef {
    pub id: String,
    pub name: String,
    pub category: String,
    pub params: Vec<ParamDef>,
    pub ffmpeg: String,
    pub notes: Option<String>,
}

/// The contents of an `EffectDef`.
#[verifier::ext_equal]
pub struct EffectDefV {
    pub id: Seq<char>,
    pub name: Seq<char>,
    pub category: Seq<char>,
    pub params: Seq<ParamDefV>,
    pub ffmpeg: Seq<char>,
    pub notes: Option<Seq<char>>,
}

impl View for EffectDef {
    type V = EffectDefV;

    open spec fn view(&self) -> EffectDefV {
        EffectDefV {
            id: self.id@,
            name: self.name@,
            category: self.category@,
            params: seqs::views(self.params@),
            ffmpeg: self.ffmpeg@,
            notes: model::opt_text(self.notes),
        }
    }
}

impl Duplicate for EffectDef {
    fn duplicate(&self) -> (r: EffectDef) {
        EffectDef {
            id: self.id.clone(),
            name: self.name.clone(),
            category: self.category.clone(),
            params: seqs::duplicate_all(&self.params),
            ffmpeg: self.ffmpeg.clone(),
            notes: duplicate_text(&self.notes),
        }
    }
}

impl ParamDefV {
    /// Whether a value can be made for an effect: the limits are in order, and
    /// the effect or the definition has a colour.
    pub open spec fn fits(self, inst: EffectV) -> bool {
        match self.kind {
            KindV::Float { default, min, max } => min.at_most(max),
            KindV::Color { default } => color_text(default) is Some || (match strmap::lookup(
                inst.color_params,
                self.key,
            ) {
                Some(x) => color_text(x) is Some,
                None => false,
            }),
        }
    }
}

impl EffectDefV {
    /// Whether a value can be made of every parameter for an effect.
    pub open spec fn fits(self, inst: EffectV) -> bool {
        forall|i: int| 0 <= i < self.params.len() ==> (#[trigger] self.params[i]).fits(inst)
    }
}

impl ParamDef {
    fn fits(&self, inst: &EffectInstance) -> (b: bool)
        ensures
            b == self@.fits(inst@),
    {
        match &self.kind {
            ParamKind::Float { default, min, max } => min.le(*max),
            ParamKind::Color { default } => format_color(default.as_str()).is_some()
                || match inst.color_params.get(self.key.as_str()) {
                Some(x) => format_color(x.as_str()).is_some(),
                None => false,
            },
        }
    }
}

impl EffectDef {
    /// Tells whether the chain of an effect can be written: a value can be made
    /// of every parameter.
    pub fn fits(&self, inst: &EffectInstance) -> (b: bool)
        ensures
            b == self@.fits(inst@),
    {
        let mut i: usize = 0;
        while i < self.params.len()
            invariant
                i <= self.params.len(),
                forall|k: int| 0 <= k < i ==> (#[trigger] self@.params[k]).fits(inst@),
            decreases self.params.len() - i,
        {
            assert(self@.params[i as int] == self.params@[i as int]@);
            if !self.params[i].fits(inst) {
                return false;
            }
            i = i + 1;
        }
        true
    }
}

/// Whether the chain of an effect can be written, where it is on and known.
pub open spec fn fits_in(registry: Seq<EffectDefV>, e: EffectV) -> bool {
    e.enabled ==> match effect_of(registry, e.effect_id) {
        Some(d) => d.fits(e),
        None => true,
    }
}

/// Whether the chains of effects can be written.
pub open spec fn fitting(registry: Seq<EffectDefV>, effects: Seq<EffectV>) -> bool {
    forall|i: int| 0 <= i < effects.len() ==> fits_in(registry, #[trigger] effects[i])
}

/// Tells whether the chains of effects can be written with a registry.
pub fn effects_fit(registry: &Vec<EffectDef>, effects: &Vec<EffectInstance>) -> (b: bool)
    ensures
        b == fitting(seqs::views(registry@), seqs::views(effects@)),
{
    let ghost all = seqs::views(effects@);
    let ghost reg = seqs::views(registry@);
    let mut i: usize = 0;
    while i < effects.len()
        invariant
            i <= effects.len(),
            all == seqs::views(effects@),
            reg == seqs::views(registry@),
            forall|k: int| 0 <= k < i ==> fits_in(reg, #[trigger] all[k]),
        decreases effects.len() - i,
    {
        let e: &EffectInstance = &effects[i];
        assert(all[i as int] == e@);
        if e.enabled {
            if let Some(d) = find_effect(registry, e.effect_id.as_str()) {
                if !d.fits(e) {
                    return false;
                }
            }
        }
        i = i + 1;
    }
    true
}

/// Where the definition with an identifier is; the length where there is none.
pub open spec fn effect_pos(registry: Seq<EffectDefV>, id: Seq<char>) -> nat
    decreases registry.len(),
{
    if registry.len() == 0 || registry[0].id == id {
        0
    } else {
        1 + effect_pos(registry.drop_first(), id)
    }
}

/// The first definition with an identifier.
pub open spec fn effect_of(registry: Seq<EffectDefV>, id: Seq<char>) -> Option<EffectDefV> {
    let i = effect_pos(registry, id);
    if i < registry.len() {
        Some(registry[i as int])
    } else {
        None
    }
}

fn find_effect_pos(registry: &Vec<EffectDef>, id: &str) -> (i: usize)
    ensures
        i == effect_pos(seqs::views(registry@), id@),
        i <= registry.len(),
{
    let ghost all = seqs::views(registry@);
    let mut i: usize = 0;
    assert(all.skip(0) =~= all);
    while i < registry.len()
        invariant
            i <= registry.len(),
            all == seqs::views(registry@),
            effect_pos(all, id@) == i + effect_pos(all.skip(i as int), id@),
        decreases registry.len() - i,
    {
        assert(all.skip(i as int)[0] == registry@[i as int]@);
        assert(all.skip(i as int).drop_first() =~= all.skip(i as int + 1));
        if same_text(registry[i].id.as_str(), id) {
            return i;
        }
        i = i + 1;
    }
    i
}

/// Finds the first definition with an identifier.
pub fn find_effect<'a>(registry: &'a Vec<EffectDef>, id: &str) -> (r: Option<&'a EffectDef>)
    ensures
        match effect_of(seqs::views(registry@), id@) {
            Some(d) => r is Some && r->Some_0@ == d && registry@.contains(*r->Some_0),
            None => r is None,
        },
{
    let i: usize = find_effect_pos(registry, id);
    if i < registry.len() {
        assert(registry@.contains(registry@[i as int]));
        Some(&registry[i])
    } else {
        None
    }
}

/// A registry with a definition put in the place of the one with its
/// identifier, or at the end.
pub open spec fn with_effect(registry: Seq<EffectDefV>, d: EffectDefV) -> Seq<EffectDefV> {
    let i = effect_pos(registry, d.id);
    if i < registry.len() {
        registry.update(i as int, d)
    } else {
        registry.push(d)
    }
}

/// A registry with definitions of the user over it.
pub open spec fn merged(core: Seq<EffectDefV>, user: Seq<EffectDefV>) -> Seq<EffectDefV>
    decreases user.len(),
{
    if user.len() == 0 {
        core
    } else {
        with_effect(merged(core, user.drop_last()), user.last())
    }
}

/// Lays definitions of the user over the core ones: with the same identifier
/// the user's wins.
pub fn merge_registries(core: Vec<EffectDef>, user: Vec<EffectDef>) -> (r: Vec<EffectDef>)
    ensures
        seqs::views(r@) == merged(seqs::views(core@), seqs::views(user@)),
{
    let mut r: Vec<EffectDef> = core;
    let ghost all = seqs::views(user@);
    let mut i: usize = 0;
    assert(all.take(0) =~= Seq::<EffectDefV>::empty());
    while i < user.len()
        invariant
            i <= user.len(),
            all == seqs::views(user@),
            seqs::views(r@) == merged(seqs::views(core@), all.take(i as int)),
        decreases user.len() - i,
    {
        let u: EffectDef = user[i].duplicate();
        let ghost uv = u@;
        let ghost before = r@;
        proof {
            assert(all.take(i as int + 1).drop_last() =~= all.take(i as int));
            assert(all.take(i as int + 1).last() == uv);
        }
        let at: usize = find_effect_pos(&r, u.id.as_str());
        if at < r.len() {
            r.set(at, u);
            assert(seqs::views(r@) =~= seqs::views(before).update(at as int, uv));
        } else {
            r.push(u);
            assert(seqs::views(r@) =~= seqs::views(before).push(uv));
        }
        i = i + 1;
    }
    assert(all.take(i as int) =~= all);
    r
}

proof fn lemma_effect_pos(registry: Seq<EffectDefV>, id: Seq<char>)
    ensures
        effect_pos(registry, id) <= registry.len(),
    decreases registry.len(),
{
    if registry.len() > 0 && registry[0].id != id {
        lemma_effect_pos(registry.drop_first(), id);
    }
}

proof fn lemma_effect_pos_put(registry: Seq<EffectDefV>, d: EffectDefV, id: Seq<char>)
    ensures
        d.id == id ==> effect_of(with_effect(registry, d), id) == Some(d),
        d.id != id ==> effect_of(with_effect(registry, d), id) == effect_of(registry, id),
    decreases registry.len(),
{
    let w = with_effect(registry, d);
    lemma_effect_pos(registry, d.id);
    lemma_effect_pos(registry, id);
    lemma_effect_pos(w, id);
    if registry.len() == 0 {
        assert(w.drop_first() =~= Seq::<EffectDefV>::empty());
        assert(effect_pos(w.drop_first(), id) == 0);
    } else if registry[0].id == d.id {
        assert(w =~= registry.update(0, d));
        assert(w.drop_first() =~= registry.drop_first());
    } else {
        let rest = registry.drop_first();
        lemma_effect_pos(rest, d.id);
        lemma_effect_pos(rest, id);
        lemma_effect_pos_put(rest, d, id);
        lemma_effect_pos(with_effect(rest, d), id);
        assert(w.drop_first() =~= with_effect(rest, d));
        assert(w[0] == registry[0]);
    }
}

/// A definition of the user wins over every other with its identifier: what is
/// found in the merged registry is the last such definition of the user, and a
/// core one only where the user has none.
pub proof fn law_user_wins(core: Seq<EffectDefV>, user: Seq<EffectDefV>, id: Seq<char>)
    ensures
        (forall|i: int| 0 <= i < user.len() ==> (#[trigger] user[i]).id != id) ==> effect_of(
            merged(core, user),
            id,
        ) == effect_of(core, id),
        forall|i: int|
            0 <= i < user.len() && (#[trigger] user[i]).id == id && (forall|j: int|
                i < j < user.len() ==> (#[trigger] user[j]).id != id) ==> effect_of(
                merged(core, user),
                id,
            ) == Some(user[i]),
    decreases user.len(),
{
    if user.len() > 0 {
        let less = user.drop_last();
        law_user_wins(core, less, id);
        lemma_effect_pos_put(merged(core, less), user.last(), id);
        assert forall|i: int|
            0 <= i < user.len() && (#[trigger] user[i]).id == id && (forall|j: int|
                i < j < user.len() ==> (#[trigger] user[j]).id != id) implies effect_of(
            merged(core, user),
            id,
        ) == Some(user[i]) by {
            if i < user.len() - 1 {
                assert(user[user.len() - 1].id != id);
                assert(less[i] == user[i]);
                assert forall|j: int| i < j < less.len() implies (#[trigger] less[j]).id != id by {
                    assert(less[j] == user[j]);
                }
            }
        }
        if forall|i: int| 0 <= i < user.len() ==> (#[trigger] user[i]).id != id {
            assert(user[user.len() - 1].id != id);
            assert forall|i: int| 0 <= i < less.len() implies (#[trigger] less[i]).id != id by {
                assert(less[i] == user[i]);
            }
        }
    }
}

// ---- labels ----

/// Numbers for labels inside one filter graph, so that no two collide.
#[derive(Clone, Copy, PartialEq, Eq, Structural, Debug)]
pub struct Labels {
    /// The next number for an effect.
    pub effects: u64,
    /// The next number for a position.
    pub places: u64,
}

/// The number after one is taken; after the last comes the first.
pub open spec fn bumped(n: u64) -> u64 {
    if n == u64::MAX {
        0
    } else {
        (n + 1) as u64
    }
}

fn bump(n: u64) -> (r: u64)
    ensures
        r == bumped(n),
{
    if n == u64::MAX {
        0
    } else {
        n + 1
    }
}

impl Labels {
    /// Numbers from the start.
    pub fn new() -> (l: Labels)
        ensures
            l == (Labels { effects: 0, places: 0 }),
    {
        Labels { effects: 0, places: 0 }
    }
}

// ---- effects ----

/// The value of a parameter in a template.
pub open spec fn value_text(p: ParamDefV, inst: EffectV, at: TimeUs) -> Seq<char> {
    match p.kind {
        KindV::Float { default, min, max } => {
            let v = match strmap::lookup(inst.params, p.key) {
                Some(x) => x.at(at),
                None => default,
            };
            float_text(v.within(min, max))
        },
        KindV::Color { default } => {
            let hex = match strmap::lookup(inst.color_params, p.key) {
                Some(x) => x,
                None => default,
            };
            match color_text(hex) {
                Some(x) => x,
                None => color_text(default)->Some_0,
            }
        },
    }
}

/// A template with the values of parameters put in, one after the other.
pub open spec fn filled(t: Seq<char>, params: Seq<ParamDefV>, inst: EffectV, at: TimeUs) -> Seq<char>
    decreases params.len(),
{
    if params.len() == 0 {
        t
    } else {
        let p = params.last();
        text::replaced(
            filled(t, params.drop_last(), inst, at),
            "{"@ + p.key + "}"@,
            value_text(p, inst, at),
        )
    }
}

/// The filter chain of an effect as it is at a time.
pub open spec fn effect_text(d: EffectDefV, inst: EffectV, at: TimeUs, labels: Labels) -> Seq<char> {
    filled(
        text::replaced(d.ffmpeg, "{u}"@, "u"@ + text::digits(labels.effects as nat)),
        d.params,
        inst,
        at,
    )
}

/// The labels after an effect.
pub open spec fn effect_labels(d: EffectDefV, labels: Labels) -> Labels {
    if text::has_text(d.ffmpeg, "{u}"@) {
        Labels { effects: bumped(labels.effects), ..labels }
    } else {
        labels
    }
}

proof fn lemma_replaced_none(s: Seq<char>, pat: Seq<char>, with: Seq<char>)
    requires
        !text::has_text(s, pat),
        pat.len() > 0,
    ensures
        text::replaced(s, pat, with) == s,
    decreases s.len(),
{
    if s.len() > 0 {
        if pat.len() <= s.len() && s.take(pat.len() as int) == pat {
            assert(s.skip(0) =~= s);
            assert(s.skip(0).take(pat.len() as int) == pat);
        }
        assert forall|i: int|
            0 <= i && i + pat.len() <= s.skip(1).len() implies #[trigger] s.skip(1).skip(i).take(
            pat.len() as int,
        ) != pat by {
            assert(s.skip(1).skip(i) =~= s.skip(i + 1));
            assert(s.skip(i + 1).take(pat.len() as int) != pat);
        }
        lemma_replaced_none(s.skip(1), pat, with);
        assert(seq![s[0]] + s.skip(1) =~= s);
    }
}

fn param_value(p: &ParamDef, inst: &EffectInstance, at: TimeUs) -> (s: String)
    requires
        p@.fits(inst@),
    ensures
        s@ == value_text(p@, inst@, at),
{
    match &p.kind {
        ParamKind::Float { default, min, max } => {
            let v: Real = match inst.params.get(p.key.as_str()) {
                Some(x) => x.eval(at),
                None => *default,
            };
            format_float(v.clamp(*min, *max))
        },
        ParamKind::Color { default } => {
            let chosen: Option<String> = match inst.color_params.get(p.key.as_str()) {
                Some(x) => format_color(x.as_str()),
                None => format_color(default.as_str()),
            };
            match chosen {
                Some(x) => x,
                None => match format_color(default.as_str()) {
                    Some(x) => x,
                    None => String::new(),
                },
            }
        },
    }
}

/// Writes the filter chain of an effect with its animated parameters as they
/// are at a time (relative to the clip). Parameters that the instance does not
/// have take their defaults, numbers are kept in their limits, and `{u}` gets a
/// number that no other effect has.
pub fn render_effect_at(def: &EffectDef, inst: &EffectInstance, at: TimeUs, labels: &mut Labels) -> (r:
    String)
    requires
        def@.fits(inst@),
    ensures
        r@ == effect_text(def@, inst@, at, *old(labels)),
        *final(labels) == effect_labels(def@, *old(labels)),
{
    let mut out: String = def.ffmpeg.clone();
    proof {
        reveal_strlit("{u}");
        if !text::has_text(def.ffmpeg@, "{u}"@) {
            lemma_replaced_none(
                def.ffmpeg@,
                "{u}"@,
                "u"@ + text::digits(old(labels).effects as nat),
            );
        }
    }
    if contains_text(out.as_str(), "{u}") {
        let mut n: String = copy_text("u");
        let d1: String = nat_to_text((labels.effects) as u128);
        n.append(d1.as_str());
        out = replace_all(out.as_str(), "{u}", n.as_str());
        labels.effects = bump(labels.effects);
    }
    let ghost t0 = out@;
    let ghost all = def@.params;
    let mut i: usize = 0;
    assert(all.take(0) =~= Seq::<ParamDefV>::empty());
    while i < def.params.len()
        invariant
            i <= def.params.len(),
            all == def@.params,
            def@.fits(inst@),
            out@ == filled(t0, all.take(i as int), inst@, at),
        decreases def.params.len() - i,
    {
        let p: &ParamDef = &def.params[i];
        proof {
            assert(all[i as int] == p@);
            assert(all.take(i as int + 1).drop_last() =~= all.take(i as int));
            assert(all.take(i as int + 1).last() == p@);
            reveal_strlit("{");
        }
        let mut place: String = copy_text("{");
        place.append(p.key.as_str());
        place.append("}");
        let value: String = param_value(p, inst, at);
        out = replace_all(out.as_str(), place.as_str(), value.as_str());
        i = i + 1;
    }
    assert(all.take(i as int) =~= all);
    out
}

/// Writes the filter chain of an effect as it is at the start of the clip.
pub fn render_effect(def: &EffectDef, inst: &EffectInstance, labels: &mut Labels) -> (r: String)
    requires
        def@.fits(inst@),
    ensures
        r@ == effect_text(def@, inst@, 0, *old(labels)),
        *final(labels) == effect_labels(def@, *old(labels)),
{
    render_effect_at(def, inst, 0, labels)
}

/// The chains of effects that are on and known, and the labels after them.
pub open spec fn chain_parts(
    registry: Seq<EffectDefV>,
    effects: Seq<EffectV>,
    at: TimeUs,
    labels: Labels,
) -> (Seq<Seq<char>>, Labels)
    decreases effects.len(),
{
    if effects.len() == 0 {
        (Seq::<Seq<char>>::empty(), labels)
    } else {
        let r = chain_parts(registry, effects.drop_last(), at, labels);
        let e = effects.last();
        match effect_of(registry, e.effect_id) {
            Some(d) => if e.enabled {
                (r.0.push(effect_text(d, e, at, r.1)), effect_labels(d, r.1))
            } else {
                r
            },
            None => r,
        }
    }
}

/// Parts of a chain as one; none for no parts.
pub open spec fn chained(parts: Seq<Seq<char>>) -> Option<Seq<char>> {
    if parts.len() == 0 {
        None
    } else {
        Some(text::joined(parts, ","@))
    }
}

/// The contents of an optional text.
pub open spec fn opt(s: Option<String>) -> Option<Seq<char>> {
    model::opt_text(s)
}

fn chain(parts: &Vec<String>) -> (r: Option<String>)
    ensures
        opt(r) == chained(text::texts(parts@)),
{
    if parts.len() == 0 {
        None
    } else {
        Some(join(parts, ","))
    }
}

/// Writes the chain of the effects of a clip that are on, with their animated
/// parameters as they are at a time; `None` where there is none.
pub fn render_chain_at(
    registry: &Vec<EffectDef>,
    effects: &Vec<EffectInstance>,
    at: TimeUs,
    labels: &mut Labels,
) -> (r: Option<String>)
    requires
        fitting(seqs::views(registry@), seqs::views(effects@)),
    ensures
        opt(r) == chained(
            chain_parts(seqs::views(registry@), seqs::views(effects@), at, *old(labels)).0,
        ),
        *final(labels) == chain_parts(
            seqs::views(registry@),
            seqs::views(effects@),
            at,
            *old(labels),
        ).1,
{
    let ghost all = seqs::views(effects@);
    let ghost reg = seqs::views(registry@);
    let ghost l0 = *labels;
    let mut parts: Vec<String> = Vec::new();
    let mut i: usize = 0;
    assert(all.take(0) =~= Seq::<EffectV>::empty());
    assert(text::texts(parts@) =~= Seq::<Seq<char>>::empty());
    while i < effects.len()
        invariant
            i <= effects.len(),
            all == seqs::views(effects@),
            reg == seqs::views(registry@),
            fitting(reg, all),
            chain_parts(reg, all.take(i as int), at, l0) == (text::texts(parts@), *labels),
        decreases effects.len() - i,
    {
        let e: &EffectInstance = &effects[i];
        proof {
            assert(all.take(i as int + 1).drop_last() =~= all.take(i as int));
            assert(all.take(i as int + 1).last() == e@);
        }
        if e.enabled {
            if let Some(d) = find_effect(registry, e.effect_id.as_str()) {
                assert(fits_in(reg, all[i as int]));
                let s: String = render_effect_at(d, e, at, labels);
                push_text(&mut parts, s);
            }
        }
        i = i + 1;
    }
    assert(all.take(i as int) =~= all);
    chain(&parts)
}

/// Writes the chain of the effects of a clip that are on; `None` where there is
/// none.
pub fn render_chain(registry: &Vec<EffectDef>, effects: &Vec<EffectInstance>, labels: &mut Labels) -> (r:
    Option<String>)
    requires
        fitting(seqs::views(registry@), seqs::views(effects@)),
    ensures
        opt(r) == chained(
            chain_parts(seqs::views(registry@), seqs::views(effects@), 0, *old(labels)).0,
        ),
        *final(labels) == chain_parts(
            seqs::views(registry@),
            seqs::views(effects@),
            0,
            *old(labels),
        ).1,
{
    render_chain_at(registry, effects, 0, labels)
}

// ---- animated parameters ----

/// The expression of a curve between a key and the next, over a time.
pub open spec fn segment_expr(a: Keyframe, b: Keyframe, tvar: Seq<char>) -> Seq<char> {
    match a.interp {
        Interp::Hold => float_text(a.value),
        _ => "("@ + float_text(a.value) + "+("@ + float_text(b.value.minus(a.value)) + ")*("@ + tvar + "-"@ + secs_text(a.t) + ")/("@ + secs_text(time::max_time(time::sooner(b.t, a.t), 1)) + "))"@,
    }
}

/// The expression of a curve from a key on.
pub open spec fn expr_from(keys: Seq<Keyframe>, i: int, tvar: Seq<char>) -> Seq<char>
    decreases keys.len() - i,
{
    if i + 1 >= keys.len() {
        float_text(keys.last().value)
    } else {
        "if(lt("@ + tvar + ","@ + secs_text(keys[i + 1].t) + "),"@ + segment_expr(keys[i], keys[i + 1], tvar) + ","@ + expr_from(keys, i + 1, tvar) + ")"@
    }
}

/// The expression of a parameter over a time in seconds.
pub open spec fn expr_text(p: ParamV, tvar: Seq<char>) -> Seq<char> {
    match p {
        ParamV::Const(v) => float_text(v),
        ParamV::Curve(keys) => if keys.len() == 0 {
            "0"@
        } else {
            "if(lt("@ + tvar + ","@ + secs_text(keys[0].t) + "),"@ + float_text(keys[0].value) + ","@ + expr_from(keys, 0, tvar) + ")"@
        },
    }
}

fn segment(a: Keyframe, b: Keyframe, tvar: &str) -> (r: String)
    ensures
        r@ == segment_expr(a, b, tvar@),
{
    match a.interp {
        Interp::Hold => format_float(a.value),
        _ => {
            let mut r: String = copy_text("(");
            let d1: String = format_float(a.value);
            r.append(d1.as_str());
            r.append("+(");
            let d2: String = format_float(b.value.sub(a.value));
            r.append(d2.as_str());
            r.append(")*(");
            r.append(tvar);
            r.append("-");
            let d3: String = secs(a.t);
            r.append(d3.as_str());
            r.append(")/(");
            let d4: String = secs(max2(minus(b.t, a.t), 1));
            r.append(d4.as_str());
            r.append("))");
            r
        },
    }
}

/// Writes a parameter as an ffmpeg expression over a time in seconds relative
/// to the clip. Held and linear pieces are exact; smooth ones become linear.
pub fn param_expr(p: &Param, tvar: &str) -> (r: String)
    ensures
        r@ == expr_text(p@, tvar@),
{
    match p {
        Param::Const(v) => format_float(*v),
        Param::Curve(c) => {
            if c.keys.len() == 0 {
                return copy_text("0");
            }
            let n: usize = c.keys.len();
            let mut expr: String = format_float(c.keys[n - 1].value);
            let mut i: usize = n - 1;
            while i > 0
                invariant
                    i < n,
                    n == c.keys.len(),
                    expr@ == expr_from(c.keys@, i as int, tvar@),
                decreases i,
            {
                i = i - 1;
                let seg: String = segment(c.keys[i], c.keys[i + 1], tvar);
                let mut next: String = copy_text("if(lt(");
                next.append(tvar);
                next.append(",");
                let d1: String = secs(c.keys[i + 1].t);
                next.append(d1.as_str());
                next.append("),");
                next.append(seg.as_str());
                next.append(",");
                next.append(expr.as_str());
                next.append(")");
                expr = next;
            }
            let mut r: String = copy_text("if(lt(");
            r.append(tvar);
            r.append(",");
            let d2: String = secs(c.keys[0].t);
            r.append(d2.as_str());
            r.append("),");
            let d3: String = format_float(c.keys[0].value);
            r.append(d3.as_str());
            r.append(",");
            r.append(expr.as_str());
            r.append(")");
            r
        },
    }
}

/// Whether a parameter really changes: a curve of two keys or more.
pub open spec fn moves(p: ParamV) -> bool {
    p matches ParamV::Curve(keys) && keys.len() > 1
}

fn animated(p: &Param) -> (b: bool)
    ensures
        b == moves(p@),
{
    match p {
        Param::Const(v) => false,
        Param::Curve(c) => c.keys.len() > 1,
    }
}

// ---- transforms ----

/// What counts as nothing.
pub open spec fn tiny() -> Real {
    Real { bits: TINY_BITS }
}

/// A scale factor in its limits.
pub open spec fn scale_of(p: ParamV) -> Real {
    p.at(0).within(Real { bits: SCALE_LIMIT_BITS }, Real::of(10))
}

fn scale_at(p: &Param) -> (x: Real)
    ensures
        x == scale_of(p@),
{
    p.eval(0).clamp(Real { bits: SCALE_LIMIT_BITS }, Real::from_int(10))
}

/// A fraction that is cropped, in its limits.
pub open spec fn crop_of(p: ParamV) -> Real {
    p.at(0).within(Real::of(0), Real { bits: CROP_LIMIT_BITS })
}

fn crop_at(p: &Param) -> (x: Real)
    ensures
        x == crop_of(p@),
{
    p.eval(0).clamp(Real::from_int(0), Real { bits: CROP_LIMIT_BITS })
}

/// The opacity in its limits.
pub open spec fn opacity_of(t: TransformV) -> Real {
    t.opacity.at(0).within(Real::of(0), Real::of(1))
}

/// The place in whole pixels.
pub open spec fn place_of(p: ParamV) -> int {
    p.at(0).to_nearest_int()
}

/// Whether a factor changes anything.
pub open spec fn off_one(x: Real) -> bool {
    tiny().less(x.minus(Real::of(1)).magn())
}

fn differs_from_one(x: Real) -> (b: bool)
    ensures
        b == off_one(x),
{
    let limit: Real = Real { bits: TINY_BITS };
    limit.lt(x.sub(Real::from_int(1)).abs())
}

/// Whether the size changes.
pub open spec fn scaled(t: TransformV) -> bool {
    moves(t.scale.0) || moves(t.scale.1) || off_one(scale_of(t.scale.0)) || off_one(
        scale_of(t.scale.1),
    )
}

/// Whether the picture is turned.
pub open spec fn turned(t: TransformV) -> bool {
    moves(t.rotation) || tiny().less(t.rotation.at(0).magn())
}

/// Whether the picture is not opaque.
pub open spec fn faded(t: TransformV) -> bool {
    moves(t.opacity) || opacity_of(t).less(Real { bits: OPAQUE_BITS })
}

/// Whether the picture is placed off the centre.
pub open spec fn placed(t: TransformV) -> bool {
    moves(t.position.0) || moves(t.position.1) || place_of(t.position.0) != 0 || place_of(
        t.position.1,
    ) != 0
}

fn is_scaled(t: &Transform2D) -> (b: bool)
    ensures
        b == scaled(t@),
{
    animated(&t.scale.0) || animated(&t.scale.1) || differs_from_one(scale_at(&t.scale.0))
        || differs_from_one(scale_at(&t.scale.1))
}

fn is_turned(t: &Transform2D) -> (b: bool)
    ensures
        b == turned(t@),
{
    let limit: Real = Real { bits: TINY_BITS };
    animated(&t.rotation) || limit.lt(t.rotation.eval(0).abs())
}

fn is_faded(t: &Transform2D) -> (b: bool)
    ensures
        b == faded(t@),
{
    let limit: Real = Real { bits: OPAQUE_BITS };
    animated(&t.opacity) || t.opacity.eval(0).clamp(Real::from_int(0), Real::from_int(1)).lt(limit)
}

fn is_placed(t: &Transform2D) -> (b: bool)
    ensures
        b == placed(t@),
{
    animated(&t.position.0) || animated(&t.position.1) || t.position.0.eval(0).round_to_int() != 0
        || t.position.1.eval(0).round_to_int() != 0
}

/// First the picture is fitted to the canvas, where it is opaque and changes.
pub open spec fn fit_stage(
    parts: Seq<Seq<char>>,
    t: TransformV,
    canvas: Option<(u32, u32)>,
    transparent: bool,
) -> Seq<Seq<char>> {
    match canvas {
        Some(c) => if !transparent && (placed(t) || scaled(t) || turned(t) || faded(t)) {
            parts.push("scale="@ + text::digits(c.0 as nat) + ":"@ + text::digits(c.1 as nat) + ":force_original_aspect_ratio=decrease"@)
        } else {
            parts
        },
        None => parts,
    }
}

fn add_fit(parts: &mut Vec<String>, t: &Transform2D, canvas: Option<(u32, u32)>, transparent: bool)
    ensures
        text::texts(final(parts)@) == fit_stage(text::texts(old(parts)@), t@, canvas, transparent),
{
    if let Some(c) = canvas {
        if !transparent && (is_placed(t) || is_scaled(t) || is_turned(t) || is_faded(t)) {
            let mut s1: String = copy_text("scale=");
            let d2: String = nat_to_text((c.0) as u128);
            s1.append(d2.as_str());
            s1.append(":");
            let d3: String = nat_to_text((c.1) as u128);
            s1.append(d3.as_str());
            s1.append(":force_original_aspect_ratio=decrease");
            push_text(parts, s1);
        }
    }
}

/// Then the picture is cropped.
pub open spec fn crop_stage(parts: Seq<Seq<char>>, t: TransformV) -> Seq<Seq<char>> {
    let l = crop_of(t.crop.0);
    let top = crop_of(t.crop.1);
    let r = crop_of(t.crop.2);
    let b = crop_of(t.crop.3);
    if tiny().less(l.plus(top).plus(r).plus(b)) {
        parts.push(
            "crop=w=trunc(iw*"@ + float_text(Real::of(1).minus(l).minus(r)) + "/2)*2:h=trunc(ih*"@ + float_text(Real::of(1).minus(top).minus(b)) + "/2)*2:x=iw*"@ + float_text(l) + ":y=ih*"@ + float_text(top),
        )
    } else {
        parts
    }
}

fn add_crop(parts: &mut Vec<String>, t: &Transform2D)
    ensures
        text::texts(final(parts)@) == crop_stage(text::texts(old(parts)@), t@),
{
    let l: Real = crop_at(&t.crop.0);
    let top: Real = crop_at(&t.crop.1);
    let r: Real = crop_at(&t.crop.2);
    let b: Real = crop_at(&t.crop.3);
    let limit: Real = Real { bits: TINY_BITS };
    if limit.lt(l.add(top).add(r).add(b)) {
        let one: Real = Real::from_int(1);
        let mut s1: String = copy_text("crop=w=trunc(iw*");
        let d2: String = format_float(one.sub(l).sub(r));
        s1.append(d2.as_str());
        s1.append("/2)*2:h=trunc(ih*");
        let d3: String = format_float(one.sub(top).sub(b));
        s1.append(d3.as_str());
        s1.append("/2)*2:x=iw*");
        let d4: String = format_float(l);
        s1.append(d4.as_str());
        s1.append(":y=ih*");
        let d5: String = format_float(top);
        s1.append(d5.as_str());
        push_text(parts, s1);
    }
}

/// Then the picture is scaled.
pub open spec fn scale_stage(parts: Seq<Seq<char>>, t: TransformV, tvar: Seq<char>) -> Seq<Seq<char>> {
    if moves(t.scale.0) || moves(t.scale.1) {
        parts.push(
            "scale=w='trunc(iw*clip("@ + expr_text(t.scale.0, tvar) + ",0.01,10)/2)*2':h='trunc(ih*clip("@ + expr_text(t.scale.1, tvar) + ",0.01,10)/2)*2':eval=frame"@,
        )
    } else if scaled(t) {
        parts.push(
            "scale=trunc(iw*"@ + float_text(scale_of(t.scale.0)) + "/2)*2:trunc(ih*"@ + float_text(scale_of(t.scale.1)) + "/2)*2"@,
        )
    } else {
        parts
    }
}

fn add_scale(parts: &mut Vec<String>, t: &Transform2D, tvar: &str)
    ensures
        text::texts(final(parts)@) == scale_stage(text::texts(old(parts)@), t@, tvar@),
{
    if animated(&t.scale.0) || animated(&t.scale.1) {
        let ex: String = param_expr(&t.scale.0, tvar);
        let ey: String = param_expr(&t.scale.1, tvar);
        let mut s1: String = copy_text("scale=w='trunc(iw*clip(");
        s1.append(ex.as_str());
        s1.append(",0.01,10)/2)*2':h='trunc(ih*clip(");
        s1.append(ey.as_str());
        s1.append(",0.01,10)/2)*2':eval=frame");
        push_text(parts, s1);
    } else if is_scaled(t) {
        let mut s2: String = copy_text("scale=trunc(iw*");
        let d3: String = format_float(scale_at(&t.scale.0));
        s2.append(d3.as_str());
        s2.append("/2)*2:trunc(ih*");
        let d4: String = format_float(scale_at(&t.scale.1));
        s2.append(d4.as_str());
        s2.append("/2)*2");
        push_text(parts, s2);
    }
}

/// What is behind a picture.
pub open spec fn backdrop(transparent: bool) -> Seq<char> {
    if transparent {
        "black@0.0"@
    } else {
        "black"@
    }
}

fn backdrop_of(transparent: bool) -> (s: &'static str)
    ensures
        s@ == backdrop(transparent),
{
    if transparent {
        "black@0.0"
    } else {
        "black"
    }
}

/// Then the picture is turned.
pub open spec fn turn_stage(
    parts: Seq<Seq<char>>,
    t: TransformV,
    transparent: bool,
    tvar: Seq<char>,
) -> Seq<Seq<char>> {
    if turned(t) {
        let p = if transparent {
            parts.push("format=rgba"@)
        } else {
            parts
        };
        let fill = backdrop(transparent);
        if moves(t.rotation) {
            p.push(
                "rotate=a='("@ + expr_text(t.rotation, tvar) + ")*PI/180':ow=hypot(iw\\,ih):oh=ow:c="@ + fill,
            )
        } else {
            let rad = float_text(t.rotation.at(0).times(Real { bits: DEGREE_BITS }));
            p.push("rotate="@ + rad + ":ow=rotw("@ + rad + "):oh=roth("@ + rad + "):c="@ + fill)
        }
    } else {
        parts
    }
}

fn add_turn(parts: &mut Vec<String>, t: &Transform2D, transparent: bool, tvar: &str)
    ensures
        text::texts(final(parts)@) == turn_stage(text::texts(old(parts)@), t@, transparent, tvar@),
{
    if is_turned(t) {
        let fill: &str = backdrop_of(transparent);
        if transparent {
            push_text(parts, copy_text("format=rgba"));
        }
        if animated(&t.rotation) {
            let expr: String = param_expr(&t.rotation, tvar);
            let mut s1: String = copy_text("rotate=a='(");
            s1.append(expr.as_str());
            s1.append(")*PI/180':ow=hypot(iw\\,ih):oh=ow:c=");
            s1.append(fill);
            push_text(parts, s1);
        } else {
            let rad: String = format_float(t.rotation.eval(0).mul(Real { bits: DEGREE_BITS }));
            let mut s2: String = copy_text("rotate=");
            s2.append(rad.as_str());
            s2.append(":ow=rotw(");
            s2.append(rad.as_str());
            s2.append("):oh=roth(");
            s2.append(rad.as_str());
            s2.append("):c=");
            s2.append(fill);
            push_text(parts, s2);
        }
    }
}

/// Then the picture is flipped.
pub open spec fn flip_stage(parts: Seq<Seq<char>>, t: TransformV) -> Seq<Seq<char>> {
    let p = if t.flip_h {
        parts.push("hflip"@)
    } else {
        parts
    };
    if t.flip_v {
        p.push("vflip"@)
    } else {
        p
    }
}

fn add_flip(parts: &mut Vec<String>, t: &Transform2D)
    ensures
        text::texts(final(parts)@) == flip_stage(text::texts(old(parts)@), t@),
{
    if t.flip_h {
        push_text(parts, copy_text("hflip"));
    }
    if t.flip_v {
        push_text(parts, copy_text("vflip"));
    }
}

/// Then the picture gets its opacity.
pub open spec fn fade_stage(parts: Seq<Seq<char>>, t: TransformV, tvar: Seq<char>) -> Seq<Seq<char>> {
    let upper = text::replaced(tvar, "t"@, "T"@);
    if moves(t.opacity) {
        parts.push(
            "format=rgba,geq=r='r(X,Y)':g='g(X,Y)':b='b(X,Y)':a='alpha(X,Y)*clip("@ + expr_text(t.opacity, upper) + ",0,1)'"@,
        )
    } else if faded(t) {
        parts.push("format=rgba,colorchannelmixer=aa="@ + decimal::fixed_text(opacity_of(t), 4))
    } else {
        parts
    }
}

fn add_fade(parts: &mut Vec<String>, t: &Transform2D, tvar: &str)
    ensures
        text::texts(final(parts)@) == fade_stage(text::texts(old(parts)@), t@, tvar@),
{
    if animated(&t.opacity) {
        proof {
            reveal_strlit("t");
        }
        let upper: String = replace_all(tvar, "t", "T");
        let expr: String = param_expr(&t.opacity, upper.as_str());
        let mut s1: String = copy_text("format=rgba,geq=r='r(X,Y)':g='g(X,Y)':b='b(X,Y)':a='alpha(X,Y)*clip(");
        s1.append(expr.as_str());
        s1.append(",0,1)'");
        push_text(parts, s1);
    } else if is_faded(t) {
        let op: Real = t.opacity.eval(0).clamp(Real::from_int(0), Real::from_int(1));
        let aa: String = fixed(op, 4);
        let mut s2: String = copy_text("format=rgba,colorchannelmixer=aa=");
        s2.append(aa.as_str());
        push_text(parts, s2);
    }
}

/// Whether the picture is put on a canvas.
pub open spec fn on_canvas(t: TransformV) -> bool {
    placed(t) || moves(t.scale.0) || moves(t.scale.1) || faded(t)
}

/// The place of a picture on a canvas along one side.
pub open spec fn place_expr(side: Seq<char>, size: Seq<char>, t: TransformV, p: ParamV, tvar: Seq<char>) -> Seq<
    char,
> {
    if moves(t.position.0) || moves(t.position.1) {
        "'("@ + side + "-"@ + size + ")/2+("@ + expr_text(p, tvar) + ")'"@
    } else {
        "("@ + side + "-"@ + size + ")/2+"@ + text::int_text(place_of(p))
    }
}

fn place_text(side: &str, size: &str, t: &Transform2D, p: &Param, tvar: &str) -> (r: String)
    ensures
        r@ == place_expr(side@, size@, t@, p@, tvar@),
{
    if animated(&t.position.0) || animated(&t.position.1) {
        let expr: String = param_expr(p, tvar);
        let mut r: String = copy_text("'(");
        r.append(side);
        r.append("-");
        r.append(size);
        r.append(")/2+(");
        r.append(expr.as_str());
        r.append(")'");
        r
    } else {
        let mut r: String = copy_text("(");
        r.append(side);
        r.append("-");
        r.append(size);
        r.append(")/2+");
        let d1: String = int_to_text(p.eval(0).round_to_int());
        r.append(d1.as_str());
        r
    }
}

/// At last the picture is put on a canvas.
pub open spec fn place_stage(
    parts: Seq<Seq<char>>,
    t: TransformV,
    canvas: Option<(u32, u32)>,
    transparent: bool,
    tvar: Seq<char>,
    rebase: bool,
    labels: Labels,
) -> Seq<Seq<char>> {
    match canvas {
        Some(c) => if on_canvas(t) {
            let n = text::digits(labels.places as nat);
            let first = if rebase {
                "setpts=PTS-STARTPTS"@
            } else {
                "null"@
            };
            let alpha = if transparent {
                ",format=rgba"@
            } else {
                ""@
            };
            let auto = if transparent {
                ":format=auto"@
            } else {
                ""@
            };
            let x = place_expr("W"@, "w"@, t, t.position.0, tvar);
            let y = place_expr("H"@, "h"@, t, t.position.1, tvar);
            parts.push(
                first + "[p"@ + n + "fg];color=c="@ + backdrop(transparent) + ":s="@ + text::digits(c.0 as nat) + "x"@ + text::digits(c.1 as nat) + alpha + "[p"@ + n + "bg];[p"@ + n + "bg][p"@ + n + "fg]overlay=x="@ + x + ":y="@ + y + ":shortest=1"@ + auto,
            )
        } else {
            parts
        },
        None => parts,
    }
}

/// The labels after a transform.
pub open spec fn transform_labels(t: TransformV, canvas: Option<(u32, u32)>, labels: Labels) -> Labels {
    if canvas is Some && on_canvas(t) {
        Labels { places: bumped(labels.places), ..labels }
    } else {
        labels
    }
}

fn add_place(
    parts: &mut Vec<String>,
    t: &Transform2D,
    canvas: Option<(u32, u32)>,
    transparent: bool,
    tvar: &str,
    rebase: bool,
    labels: &mut Labels,
)
    ensures
        text::texts(final(parts)@) == place_stage(
            text::texts(old(parts)@),
            t@,
            canvas,
            transparent,
            tvar@,
            rebase,
            *old(labels),
        ),
        *final(labels) == transform_labels(t@, canvas, *old(labels)),
{
    if let Some(c) = canvas {
        if is_placed(t) || animated(&t.scale.0) || animated(&t.scale.1) || is_faded(t) {
            let n: String = nat_to_text(labels.places as u128);
            labels.places = bump(labels.places);
            let first: &str = if rebase {
                "setpts=PTS-STARTPTS"
            } else {
                "null"
            };
            let alpha: &str = if transparent {
                ",format=rgba"
            } else {
                ""
            };
            let auto: &str = if transparent {
                ":format=auto"
            } else {
                ""
            };
            let bg: &str = backdrop_of(transparent);
            let x: String = place_text("W", "w", t, &t.position.0, tvar);
            let y: String = place_text("H", "h", t, &t.position.1, tvar);
            let mut s1: String = copy_text(first);
            s1.append("[p");
            s1.append(n.as_str());
            s1.append("fg];color=c=");
            s1.append(bg);
            s1.append(":s=");
            let d2: String = nat_to_text((c.0) as u128);
            s1.append(d2.as_str());
            s1.append("x");
            let d3: String = nat_to_text((c.1) as u128);
            s1.append(d3.as_str());
            s1.append(alpha);
            s1.append("[p");
            s1.append(n.as_str());
            s1.append("bg];[p");
            s1.append(n.as_str());
            s1.append("bg][p");
            s1.append(n.as_str());
            s1.append("fg]overlay=x=");
            s1.append(x.as_str());
            s1.append(":y=");
            s1.append(y.as_str());
            s1.append(":shortest=1");
            s1.append(auto);
            push_text(parts, s1);
        }
    }
}

/// The parts of the chain of a transform.
pub open spec fn transform_parts(
    t: TransformV,
    canvas: Option<(u32, u32)>,
    transparent: bool,
    tvar: Seq<char>,
    rebase: bool,
    labels: Labels,
) -> Seq<Seq<char>> {
    let a = fit_stage(Seq::<Seq<char>>::empty(), t, canvas, transparent);
    let b = crop_stage(a, t);
    let c = scale_stage(b, t, tvar);
    let d = turn_stage(c, t, transparent, tvar);
    let e = flip_stage(d, t);
    let f = fade_stage(e, t, tvar);
    place_stage(f, t, canvas, transparent, tvar, rebase, labels)
}

/// Writes the chain of a transform: fit, crop, scale, rotation, flips, opacity
/// and position, the last one over a canvas. Position, rotation, scale and
/// opacity follow their curves over `tvar`; the crop is as at the start.
/// `transparent` leaves the background open for the layers below. With
/// `pts_rebase` the picture starts at time zero, for a single frame.
pub fn transform_vf_full(
    t: &Transform2D,
    canvas: Option<(u32, u32)>,
    transparent: bool,
    tvar: &str,
    pts_rebase: bool,
    labels: &mut Labels,
) -> (r: Option<String>)
    ensures
        opt(r) == chained(transform_parts(t@, canvas, transparent, tvar@, pts_rebase, *old(labels))),
        *final(labels) == transform_labels(t@, canvas, *old(labels)),
{
    let mut parts: Vec<String> = Vec::new();
    assert(text::texts(parts@) =~= Seq::<Seq<char>>::empty());
    add_fit(&mut parts, t, canvas, transparent);
    add_crop(&mut parts, t);
    add_scale(&mut parts, t, tvar);
    add_turn(&mut parts, t, transparent, tvar);
    add_flip(&mut parts, t);
    add_fade(&mut parts, t, tvar);
    add_place(&mut parts, t, canvas, transparent, tvar, pts_rebase, labels);
    chain(&parts)
}

/// Writes the chain of a transform over a time.
pub fn transform_vf_at(
    t: &Transform2D,
    canvas: Option<(u32, u32)>,
    transparent: bool,
    tvar: &str,
    labels: &mut Labels,
) -> (r: Option<String>)
    ensures
        opt(r) == chained(transform_parts(t@, canvas, transparent, tvar@, false, *old(labels))),
        *final(labels) == transform_labels(t@, canvas, *old(labels)),
{
    transform_vf_full(t, canvas, transparent, tvar, false, labels)
}

/// Writes the chain of a transform over the time `t`.
pub fn transform_vf_ex(
    t: &Transform2D,
    canvas: Option<(u32, u32)>,
    transparent: bool,
    labels: &mut Labels,
) -> (r: Option<String>)
    ensures
        opt(r) == chained(transform_parts(t@, canvas, transparent, "t"@, false, *old(labels))),
        *final(labels) == transform_labels(t@, canvas, *old(labels)),
{
    transform_vf_at(t, canvas, transparent, "t", labels)
}

/// Writes the chain of a transform over the time `t`, on an opaque canvas.
pub fn transform_vf(t: &Transform2D, canvas: Option<(u32, u32)>, labels: &mut Labels) -> (r: Option<
    String,
>)
    ensures
        opt(r) == chained(transform_parts(t@, canvas, false, "t"@, false, *old(labels))),
        *final(labels) == transform_labels(t@, canvas, *old(labels)),
{
    transform_vf_at(t, canvas, false, "t", labels)
}

// ---- clips ----

/// Effects and transform one after the other.
pub open spec fn in_turn(e: Option<Seq<char>>, t: Option<Seq<char>>) -> Option<Seq<char>> {
    match (e, t) {
        (Some(e), Some(t)) => Some(e + ","@ + t),
        (Some(e), None) => Some(e),
        (None, t) => t,
    }
}

fn put_in_turn(e: Option<String>, t: Option<String>) -> (r: Option<String>)
    ensures
        opt(r) == in_turn(opt(e), opt(t)),
{
    match (e, t) {
        (Some(e), Some(t)) => {
            let mut r: String = copy_text(e.as_str());
            r.append(",");
            r.append(t.as_str());
            Some(r)
        },
        (Some(e), None) => Some(e),
        (None, t) => t,
    }
}

/// The chain of a clip: its effects and then its transform.
#[verifier::opaque]
pub open spec fn clip_chain(
    registry: Seq<EffectDefV>,
    effects: Seq<EffectV>,
    effects_at: TimeUs,
    t: TransformV,
    canvas: Option<(u32, u32)>,
    transparent: bool,
    tvar: Seq<char>,
    rebase: bool,
    labels: Labels,
) -> Option<Seq<char>> {
    let e = chain_parts(registry, effects, effects_at, labels);
    in_turn(
        chained(e.0),
        chained(transform_parts(t, canvas, transparent, tvar, rebase, e.1)),
    )
}

/// The labels after the chain of a clip.
#[verifier::opaque]
pub open spec fn clip_labels(
    registry: Seq<EffectDefV>,
    effects: Seq<EffectV>,
    effects_at: TimeUs,
    t: TransformV,
    canvas: Option<(u32, u32)>,
    labels: Labels,
) -> Labels {
    transform_labels(t, canvas, chain_parts(registry, effects, effects_at, labels).1)
}

/// Writes the chain of a clip as it is at one time, for a single frame; with
/// `transparent` over an open canvas.
pub fn clip_vf_sampled_ex(
    registry: &Vec<EffectDef>,
    effects: &Vec<EffectInstance>,
    transform: &Transform2D,
    canvas: Option<(u32, u32)>,
    at: TimeUs,
    transparent: bool,
    labels: &mut Labels,
) -> (r: Option<String>)
    requires
        fitting(seqs::views(registry@), seqs::views(effects@)),
    ensures
        opt(r) == clip_chain(
            seqs::views(registry@),
            seqs::views(effects@),
            at,
            transform@.sampled(at),
            canvas,
            transparent,
            "t"@,
            true,
            *old(labels),
        ),
        *final(labels) == clip_labels(
            seqs::views(registry@),
            seqs::views(effects@),
            at,
            transform@.sampled(at),
            canvas,
            *old(labels),
        ),
{
    reveal(clip_chain);
    reveal(clip_labels);
    let e: Option<String> = render_chain_at(registry, effects, at, labels);
    let t: Option<String> = transform_vf_full(
        &transform.sampled(at),
        canvas,
        transparent,
        "t",
        true,
        labels,
    );
    put_in_turn(e, t)
}

/// Writes the chain of a clip as it is at one time, for a single frame.
pub fn clip_vf_sampled(
    registry: &Vec<EffectDef>,
    effects: &Vec<EffectInstance>,
    transform: &Transform2D,
    canvas: Option<(u32, u32)>,
    at: TimeUs,
    labels: &mut Labels,
) -> (r: Option<String>)
    requires
        fitting(seqs::views(registry@), seqs::views(effects@)),
    ensures
        opt(r) == clip_chain(
            seqs::views(registry@),
            seqs::views(effects@),
            at,
            transform@.sampled(at),
            canvas,
            false,
            "t"@,
            true,
            *old(labels),
        ),
        *final(labels) == clip_labels(
            seqs::views(registry@),
            seqs::views(effects@),
            at,
            transform@.sampled(at),
            canvas,
            *old(labels),
        ),
{
    clip_vf_sampled_ex(registry, effects, transform, canvas, at, false, labels)
}

fn clip_vf_over(
    registry: &Vec<EffectDef>,
    effects: &Vec<EffectInstance>,
    transform: &Transform2D,
    canvas: Option<(u32, u32)>,
    transparent: bool,
    tvar: &str,
    labels: &mut Labels,
) -> (r: Option<String>)
    requires
        fitting(seqs::views(registry@), seqs::views(effects@)),
    ensures
        opt(r) == clip_chain(
            seqs::views(registry@),
            seqs::views(effects@),
            0,
            transform@,
            canvas,
            transparent,
            tvar@,
            false,
            *old(labels),
        ),
        *final(labels) == clip_labels(
            seqs::views(registry@),
            seqs::views(effects@),
            0,
            transform@,
            canvas,
            *old(labels),
        ),
{
    reveal(clip_chain);
    reveal(clip_labels);
    let e: Option<String> = render_chain(registry, effects, labels);
    let t: Option<String> = transform_vf_at(transform, canvas, transparent, tvar, labels);
    put_in_turn(e, t)
}

/// Writes the chain of a clip: its effects and then its transform.
pub fn clip_vf(
    registry: &Vec<EffectDef>,
    effects: &Vec<EffectInstance>,
    transform: &Transform2D,
    canvas: Option<(u32, u32)>,
    labels: &mut Labels,
) -> (r: Option<String>)
    requires
        fitting(seqs::views(registry@), seqs::views(effects@)),
    ensures
        opt(r) == clip_chain(
            seqs::views(registry@),
            seqs::views(effects@),
            0,
            transform@,
            canvas,
            false,
            "t"@,
            false,
            *old(labels),
        ),
        *final(labels) == clip_labels(
            seqs::views(registry@),
            seqs::views(effects@),
            0,
            transform@,
            canvas,
            *old(labels),
        ),
{
    clip_vf_over(registry, effects, transform, canvas, false, "t", labels)
}

/// Writes the chain of a clip that lies over others, with a transparent canvas.
pub fn clip_vf_layer(
    registry: &Vec<EffectDef>,
    effects: &Vec<EffectInstance>,
    transform: &Transform2D,
    canvas: Option<(u32, u32)>,
    tvar: &str,
    labels: &mut Labels,
) -> (r: Option<String>)
    requires
        fitting(seqs::views(registry@), seqs::views(effects@)),
    ensures
        opt(r) == clip_chain(
            seqs::views(registry@),
            seqs::views(effects@),
            0,
            transform@,
            canvas,
            true,
            tvar@,
            false,
            *old(labels),
        ),
        *final(labels) == clip_labels(
            seqs::views(registry@),
            seqs::views(effects@),
            0,
            transform@,
            canvas,
            *old(labels),
        ),
{
    clip_vf_over(registry, effects, transform, canvas, true, tvar, labels)
}

/// Writes the chain of a clip over a time of its own.
pub fn clip_vf_at(
    registry: &Vec<EffectDef>,
    effects: &Vec<EffectInstance>,
    transform: &Transform2D,
    canvas: Option<(u32, u32)>,
    tvar: &str,
    labels: &mut Labels,
) -> (r: Option<String>)
    requires
        fitting(seqs::views(registry@), seqs::views(effects@)),
    ensures
        opt(r) == clip_chain(
            seqs::views(registry@),
            seqs::views(effects@),
            0,
            transform@,
            canvas,
            false,
            tvar@,
            false,
            *old(labels),
        ),
        *final(labels) == clip_labels(
            seqs::views(registry@),
            seqs::views(effects@),
            0,
            transform@,
            canvas,
            *old(labels),
        ),
{
    clip_vf_over(registry, effects, transform, canvas, false, tvar, labels)
}

// ---- a frame and the export ----

/// Whether nothing of a transform is animated.
pub open spec fn still_transform(t: TransformV) -> bool {
    &&& t.position.0 is Const && t.position.1 is Const
    &&& t.scale.0 is Const && t.scale.1 is Const
    &&& t.rotation is Const
    &&& t.crop.0 is Const && t.crop.1 is Const && t.crop.2 is Const && t.crop.3 is Const
    &&& t.opacity is Const
}

/// Whether no parameter of effects is animated.
pub open spec fn still_effects(effects: Seq<EffectV>) -> bool {
    forall|e: int, i: int|
        0 <= e < effects.len() && 0 <= i < effects[e].params.len() ==> (
        #[trigger] effects[e].params[i]).1 is Const
}

proof fn lemma_lookup_still(m: Seq<(Seq<char>, ParamV)>, key: Seq<char>)
    requires
        forall|i: int| 0 <= i < m.len() ==> (#[trigger] m[i]).1 is Const,
    ensures
        match strmap::lookup(m, key) {
            Some(x) => x is Const,
            None => true,
        },
{
}

proof fn lemma_filled_still(t: Seq<char>, params: Seq<ParamDefV>, inst: EffectV, a: TimeUs, b: TimeUs)
    requires
        forall|i: int| 0 <= i < inst.params.len() ==> (#[trigger] inst.params[i]).1 is Const,
    ensures
        filled(t, params, inst, a) == filled(t, params, inst, b),
    decreases params.len(),
{
    if params.len() > 0 {
        lemma_filled_still(t, params.drop_last(), inst, a, b);
        lemma_lookup_still(inst.params, params.last().key);
    }
}

proof fn lemma_chain_still(registry: Seq<EffectDefV>, effects: Seq<EffectV>, a: TimeUs, b: TimeUs, labels: Labels)
    requires
        still_effects(effects),
    ensures
        chain_parts(registry, effects, a, labels) == chain_parts(registry, effects, b, labels),
    decreases effects.len(),
{
    if effects.len() > 0 {
        let rest = effects.drop_last();
        let e = effects.last();
        let n = effects.len() - 1;
        assert forall|k: int, i: int|
            0 <= k < rest.len() && 0 <= i < rest[k].params.len() implies (
        #[trigger] rest[k].params[i]).1 is Const by {
            assert(rest[k] == effects[k]);
            assert(effects[k].params[i].1 is Const);
        }
        lemma_chain_still(registry, rest, a, b, labels);
        assert forall|i: int| 0 <= i < e.params.len() implies (#[trigger] e.params[i]).1 is Const by {
            assert(effects[n].params[i].1 is Const);
        }
        if let Some(d) = effect_of(registry, e.effect_id) {
            let l = chain_parts(registry, rest, a, labels).1;
            lemma_filled_still(
                text::replaced(d.ffmpeg, "{u}"@, "u"@ + text::digits(l.effects as nat)),
                d.params,
                e,
                a,
                b,
            );
        }
    }
}

/// A clip without animation looks the same in a single frame, at any time, as
/// in the export: its chain depends on neither the time nor the clock.
pub proof fn law_still_clip_looks_the_same(
    registry: Seq<EffectDefV>,
    effects: Seq<EffectV>,
    at: TimeUs,
    t: TransformV,
    canvas: Option<(u32, u32)>,
    transparent: bool,
    frame_clock: Seq<char>,
    export_clock: Seq<char>,
    rebase: bool,
    labels: Labels,
)
    requires
        still_transform(t),
        still_effects(effects),
    ensures
        clip_chain(
            registry,
            effects,
            at,
            t.sampled(at),
            canvas,
            transparent,
            frame_clock,
            rebase,
            labels,
        ) == clip_chain(
            registry,
            effects,
            0,
            t,
            canvas,
            transparent,
            export_clock,
            rebase,
            labels,
        ),
        clip_labels(registry, effects, at, t.sampled(at), canvas, labels) == clip_labels(
            registry,
            effects,
            0,
            t,
            canvas,
            labels,
        ),
{
    reveal(clip_chain);
    reveal(clip_labels);
    assert(t.sampled(at) == t);
    lemma_chain_still(registry, effects, at, 0, labels);
}

} // verus!
