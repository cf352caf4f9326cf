use vstd::prelude::*;
use crate::loading::{occurrences, lemma_occurrences_add};
use crate::cooldown::{Player, SLOTS, tick_all, tick_all_n, ticks, lemma_tick_all_n, lemma_ticks};

verus! {

/// The slot of the fireball ability.
pub const FIRE_SLOT: usize = 0;

/// The number of ticks the fireball needs before it can be thrown again.
pub const FIRE_COOLDOWN: u32 = 1000;

/// The index of the clip played while a fireball is thrown.
pub const FIRE_CLIP: usize = 2;

/// The index of the clip played while walking.
pub const RUN_CLIP: usize = 0;

/// The state of the keys the game reads on one frame.
#[derive(Clone, Copy)]
pub struct Keys {
    pub space: bool,
    pub z: bool,
    pub w: bool,
    pub a: bool,
    pub s: bool,
    pub d: bool,
}

/// The keys held down on a frame, and those pressed on that very frame.
#[derive(Clone, Copy)]
pub struct KeyInput {
    pub pressed: Keys,
    pub just_pressed: Keys,
}

/// A direction the player turns to face.
#[derive(Clone, Copy, PartialEq, Eq, Structural, Debug)]
pub enum Heading {
    Right,
    Left,
    Forward,
    Back,
}

/// One small displacement of the player, caused by one held key.
#[derive(Clone, Copy, PartialEq, Eq, Structural, Debug)]
pub enum Nudge {
    /// Upward (key Z).
    Up,
    /// To the right (key D).
    Right,
    /// To the left (key A).
    Left,
    /// Away from the camera (key W).
    Forward,
    /// Toward the camera (key S).
    Back,
}

/// A change to the player's animation.
#[derive(Clone, Copy, PartialEq, Eq, Structural, Debug)]
pub enum AnimationCommand {
    /// Play the clip with this index, looping.
    Play(usize),
    /// Pause the animation.
    Pause,
}

pub open spec fn spec_heading(n: Nudge) -> Option<Heading> {
    match n {
        Nudge::Up => None,
        Nudge::Right => Some(Heading::Right),
        Nudge::Left => Some(Heading::Left),
        Nudge::Forward => Some(Heading::Forward),
        Nudge::Back => Some(Heading::Back),
    }
}

pub open spec fn when(b: bool, n: Nudge) -> Seq<Nudge> {
    if b { seq![n] } else { seq![] }
}

/// The nudges of one frame, in the order in which they are applied.
pub open spec fn spec_nudges(k: Keys) -> Seq<Nudge> {
    when(k.z, Nudge::Up) + when(k.d, Nudge::Right) + when(k.a, Nudge::Left) + when(
        k.w,
        Nudge::Forward,
    ) + when(k.s, Nudge::Back)
}

/// Whether any walking key is held.
pub open spec fn walking(k: Keys) -> bool {
    k.w || k.a || k.s || k.d
}

/// The animation commands of one frame, in the order in which they are given.
pub open spec fn spec_animation_commands(input: KeyInput) -> Seq<AnimationCommand> {
    (if input.just_pressed.space {
        seq![AnimationCommand::Play(FIRE_CLIP)]
    } else {
        seq![]
    }) + if walking(input.just_pressed) {
        seq![AnimationCommand::Play(RUN_CLIP)]
    } else if !(walking(input.pressed) || input.pressed.space) {
        seq![AnimationCommand::Pause]
    } else {
        seq![]
    }
}

/// Whether an attempt to throw a fireball, with Space held or not, throws one
/// from cooldowns `cds`.
pub open spec fn fires(cds: Seq<u32>, space: bool) -> bool {
    space && cds[FIRE_SLOT as int] == 0
}

/// The cooldowns after an attempt to throw a fireball.
pub open spec fn after_attempt(cds: Seq<u32>, space: bool) -> Seq<u32> {
    if fires(cds, space) {
        cds.update(FIRE_SLOT as int, FIRE_COOLDOWN)
    } else {
        cds
    }
}

impl Nudge {
    /// The heading the player takes on with this nudge; `None` keeps the current one.
    pub fn heading(self) -> (h: Option<Heading>)
        ensures
            h == spec_heading(self),
    {
        match self {
            Nudge::Up => None,
            Nudge::Right => Some(Heading::Right),
            Nudge::Left => Some(Heading::Left),
            Nudge::Forward => Some(Heading::Forward),
            Nudge::Back => Some(Heading::Back),
        }
    }
}

impl Player {
    /// Throws a fireball when Space is held and the fireball slot is ready, and then
    /// starts its cooldown. Returns whether a fireball was thrown.
    pub fn try_fire(&mut self, input: &KeyInput) -> (fired: bool)
        ensures
            fired == fires(old(self).0.0@, input.pressed.space),
            final(self).0.0@ == after_attempt(old(self).0.0@, input.pressed.space),
    {
        let cds = self.0.0[FIRE_SLOT];
        if input.pressed.space && cds == 0 {
            self.0.0[FIRE_SLOT] = FIRE_COOLDOWN;
            assert(self.0.0@ =~= old(self).0.0@.update(FIRE_SLOT as int, FIRE_COOLDOWN));
            true
        } else {
            false
        }
    }
}

/// The nudges caused by the held keys: up for Z, then right for D, left for A,
/// forward for W and back for S.
pub fn nudges(pressed: &Keys) -> (res: Vec<Nudge>)
    ensures
        res@ == spec_nudges(*pressed),
{
    let mut res: Vec<Nudge> = Vec::new();
    if pressed.z {
        res.push(Nudge::Up);
    }
    if pressed.d {
        res.push(Nudge::Right);
    }
    if pressed.a {
        res.push(Nudge::Left);
    }
    if pressed.w {
        res.push(Nudge::Forward);
    }
    if pressed.s {
        res.push(Nudge::Back);
    }
    assert(res@ =~= spec_nudges(*pressed));
    res
}

/// The animation commands of a frame: the throwing clip when Space was just pressed;
/// then the walking clip when a walking key was just pressed, or a pause when neither
/// a walking key nor Space is held.
pub fn animation_commands(input: &KeyInput) -> (res: Vec<AnimationCommand>)
    ensures
        res@ == spec_animation_commands(*input),
{
    let mut res: Vec<AnimationCommand> = Vec::new();
    if input.just_pressed.space {
        res.push(AnimationCommand::Play(FIRE_CLIP));
    }
    let j = input.just_pressed;
    let p = input.pressed;
    if j.w || j.a || j.s || j.d {
        res.push(AnimationCommand::Play(RUN_CLIP));
    } else if !(p.w || p.a || p.s || p.d || p.space) {
        res.push(AnimationCommand::Pause);
    }
    assert(res@ =~= spec_animation_commands(*input));
    res
}

/// A fireball thrown from cooldowns `cds` cannot be thrown again during the next
/// `FIRE_COOLDOWN - 1` ticks and can be after `FIRE_COOLDOWN` ticks; the other slots
/// tick on as if nothing had been thrown.
pub proof fn lemma_fire_cooldown(cds: Seq<u32>, k: nat)
    requires
        cds.len() == SLOTS,
    ensures
        (tick_all_n(cds.update(FIRE_SLOT as int, FIRE_COOLDOWN), k)[FIRE_SLOT as int] == 0)
            <==> k >= FIRE_COOLDOWN,
        forall|j: int|
            0 <= j < SLOTS && j != FIRE_SLOT ==> #[trigger] tick_all_n(
                cds.update(FIRE_SLOT as int, FIRE_COOLDOWN),
                k,
            )[j] == tick_all_n(cds, k)[j],
{
    let fired = cds.update(FIRE_SLOT as int, FIRE_COOLDOWN);
    lemma_tick_all_n(fired, k);
    lemma_tick_all_n(cds, k);
    lemma_ticks(FIRE_COOLDOWN, k);
}

/// The heading after the nudges `ns`, starting from `h`: each turning nudge sets it.
pub open spec fn heading_after(ns: Seq<Nudge>, h: Option<Heading>) -> Option<Heading>
    decreases ns.len(),
{
    if ns.len() == 0 {
        h
    } else {
        match spec_heading(ns.last()) {
            Some(t) => Some(t),
            None => heading_after(ns.drop_last(), h),
        }
    }
}

/// On a frame, the player ends up facing the way of the held walking key that comes
/// last in the order D, A, W, S, and keeps its heading when none is held.
pub proof fn lemma_final_heading(k: Keys, h: Option<Heading>)
    ensures
        heading_after(spec_nudges(k), h) == if k.s {
            Some(Heading::Back)
        } else if k.w {
            Some(Heading::Forward)
        } else if k.a {
            Some(Heading::Left)
        } else if k.d {
            Some(Heading::Right)
        } else {
            h
        },
{
    let s0 = when(k.z, Nudge::Up);
    let s1 = s0 + when(k.d, Nudge::Right);
    let s2 = s1 + when(k.a, Nudge::Left);
    let s3 = s2 + when(k.w, Nudge::Forward);
    let s4 = s3 + when(k.s, Nudge::Back);
    assert(s4 == spec_nudges(k));
    reveal_with_fuel(heading_after, 2);
    if k.z {
        assert(s0.drop_last() =~= seq![]);
    }
    assert(heading_after(s0, h) == h);
    if k.d {
        assert(s1.drop_last() =~= s0);
    } else {
        assert(s1 =~= s0);
    }
    if k.a {
        assert(s2.drop_last() =~= s1);
    } else {
        assert(s2 =~= s1);
    }
    if k.w {
        assert(s3.drop_last() =~= s2);
    } else {
        assert(s3 =~= s2);
    }
    if k.s {
        assert(s4.drop_last() =~= s3);
    } else {
        assert(s4 =~= s3);
    }
}

/// What happens to one player's cooldowns: a tick (`Player::decrease_cds`) or an
/// attempt to throw a fireball (`Player::try_fire`) with Space held or not.
#[derive(Clone, Copy, PartialEq, Eq, Structural, Debug)]
pub enum CooldownEvent {
    Tick,
    Attempt(bool),
}

/// The cooldowns after one event.
pub open spec fn after_event(cds: Seq<u32>, e: CooldownEvent) -> Seq<u32> {
    match e {
        CooldownEvent::Tick => tick_all(cds),
        CooldownEvent::Attempt(space) => after_attempt(cds, space),
    }
}

/// The cooldowns before event `k` of `schedule`, starting from `cds`.
pub open spec fn state_before(cds: Seq<u32>, schedule: Seq<CooldownEvent>, k: nat) -> Seq<u32>
    decreases k,
{
    if k == 0 {
        cds
    } else {
        after_event(state_before(cds, schedule, (k - 1) as nat), schedule[k - 1])
    }
}

/// Whether event `k` of `schedule` throws a fireball.
pub open spec fn casts_at(cds: Seq<u32>, schedule: Seq<CooldownEvent>, k: nat) -> bool {
    match schedule[k as int] {
        CooldownEvent::Attempt(space) => fires(state_before(cds, schedule, k), space),
        CooldownEvent::Tick => false,
    }
}

/// The number of ticks strictly between events `i` and `j` of `schedule`.
pub open spec fn ticks_between(schedule: Seq<CooldownEvent>, i: nat, j: nat) -> nat
    decreases j,
{
    if j <= i + 1 {
        0
    } else {
        ticks_between(schedule, i, (j - 1) as nat) + if schedule[j - 1] == CooldownEvent::Tick {
            1nat
        } else {
            0nat
        }
    }
}

proof fn lemma_state_len(cds: Seq<u32>, schedule: Seq<CooldownEvent>, k: nat)
    requires
        cds.len() == SLOTS,
    ensures
        state_before(cds, schedule, k).len() == cds.len(),
    decreases k,
{
    if k > 0 {
        lemma_state_len(cds, schedule, (k - 1) as nat);
    }
}

proof fn lemma_ticks_between_monotone(schedule: Seq<CooldownEvent>, i: nat, m: nat, j: nat)
    requires
        m <= j,
    ensures
        ticks_between(schedule, i, m) <= ticks_between(schedule, i, j),
    decreases j,
{
    if m < j && j > i + 1 {
        lemma_ticks_between_monotone(schedule, i, m, (j - 1) as nat);
    }
}

/// After a throw at event `i`, and as long as no other throw follows, the fireball
/// slot holds the cooldown less the ticks since the throw.
proof fn lemma_after_cast(cds: Seq<u32>, schedule: Seq<CooldownEvent>, i: nat, k: nat)
    requires
        cds.len() == SLOTS,
        i < k <= schedule.len(),
        casts_at(cds, schedule, i),
        forall|m: nat| i < m < k ==> !#[trigger] casts_at(cds, schedule, m),
    ensures
        state_before(cds, schedule, k)[FIRE_SLOT as int] == ticks(
            FIRE_COOLDOWN,
            ticks_between(schedule, i, k),
        ),
    decreases k,
{
    lemma_state_len(cds, schedule, i);
    if k > i + 1 {
        let p = (k - 1) as nat;
        lemma_after_cast(cds, schedule, i, p);
        lemma_state_len(cds, schedule, p);
        assert(!casts_at(cds, schedule, p));
    }
}

/// Over any schedule of ticks and attempts on one player's cooldowns, two throws of
/// the fireball are separated by at least `FIRE_COOLDOWN` ticks.
pub proof fn lemma_casts_separated(cds: Seq<u32>, schedule: Seq<CooldownEvent>, i: nat, j: nat)
    requires
        cds.len() == SLOTS,
        i < j < schedule.len(),
        casts_at(cds, schedule, i),
        casts_at(cds, schedule, j),
    ensures
        ticks_between(schedule, i, j) >= FIRE_COOLDOWN,
    decreases j,
{
    if exists|m: nat| i < m < j && #[trigger] casts_at(cds, schedule, m) {
        let m = choose|m: nat| i < m < j && #[trigger] casts_at(cds, schedule, m);
        lemma_casts_separated(cds, schedule, i, m);
        lemma_ticks_between_monotone(schedule, i, m, j);
    } else {
        lemma_after_cast(cds, schedule, i, j);
        lemma_ticks(FIRE_COOLDOWN, ticks_between(schedule, i, j));
    }
}

/// The fire rule: an attempt throws exactly when Space is held and the fireball
/// slot is ready, whatever the other slots hold; a throw starts the fireball
/// cooldown and touches nothing else, and an attempt that does not throw changes nothing.
pub proof fn lemma_fire_rule(cds: Seq<u32>, space: bool, j: int, v: u32)
    requires
        cds.len() == SLOTS,
        0 <= j < SLOTS,
        j != FIRE_SLOT,
    ensures
        fires(cds, space) <==> (space && cds[FIRE_SLOT as int] == 0),
        cds[FIRE_SLOT as int] == 0 ==> fires(cds, true),
        fires(cds.update(j, v), space) == fires(cds, space),
        after_attempt(cds, space).len() == SLOTS,
        after_attempt(cds, space)[FIRE_SLOT as int] == if space && cds[FIRE_SLOT as int] == 0 {
            FIRE_COOLDOWN
        } else {
            cds[FIRE_SLOT as int]
        },
        after_attempt(cds, space)[j] == cds[j],
{
}

/// The place of each nudge in the order in which the keys are read: Z, D, A, W, S.
pub open spec fn nudge_rank(n: Nudge) -> nat {
    match n {
        Nudge::Up => 0,
        Nudge::Right => 1,
        Nudge::Left => 2,
        Nudge::Forward => 3,
        Nudge::Back => 4,
    }
}

/// Whether the nudges of `s` come in strictly increasing key order, all before rank `r`.
pub open spec fn ordered_below(s: Seq<Nudge>, r: nat) -> bool {
    &&& forall|i: int, j: int| 0 <= i < j < s.len() ==> nudge_rank(#[trigger] s[i]) < nudge_rank(#[trigger] s[j])
    &&& forall|i: int| 0 <= i < s.len() ==> nudge_rank(#[trigger] s[i]) < r
}

proof fn lemma_occurrences_when(b: bool, n: Nudge, m: Nudge)
    ensures
        occurrences(when(b, n), m) == if b && n == m { 1nat } else { 0nat },
{
    if b {
        assert(seq![n].drop_last() =~= Seq::<Nudge>::empty());
        reveal_with_fuel(occurrences, 2);
    }
}

proof fn lemma_append_when(s: Seq<Nudge>, b: bool, n: Nudge, m: Nudge)
    requires
        ordered_below(s, nudge_rank(n)),
    ensures
        ordered_below(s + when(b, n), nudge_rank(n) + 1),
        occurrences(s + when(b, n), m) == occurrences(s, m) + if b && n == m { 1nat } else { 0nat },
{
    lemma_occurrences_add(s, when(b, n), m);
    lemma_occurrences_when(b, n, m);
    let t = s + when(b, n);
    if b {
        assert forall|i: int| 0 <= i < t.len() implies nudge_rank(#[trigger] t[i]) < nudge_rank(n) + 1 by {
            if i < s.len() {
                assert(t[i] == s[i]);
            }
        }
        assert forall|i: int, j: int| 0 <= i < j < t.len() implies nudge_rank(#[trigger] t[i]) < nudge_rank(#[trigger] t[j]) by {
            assert(t[i] == s[i]);
            if j < s.len() {
                assert(t[j] == s[j]);
            }
        }
    } else {
        assert(t =~= s);
    }
}

/// Each held key gives exactly one nudge of its own kind and no other key gives it
/// (up for Z, right for D, left for A, forward for W, back for S), in the order
/// Z, D, A, W, S.
pub proof fn lemma_nudges_per_key(k: Keys)
    ensures
        occurrences(spec_nudges(k), Nudge::Up) == if k.z { 1nat } else { 0nat },
        occurrences(spec_nudges(k), Nudge::Right) == if k.d { 1nat } else { 0nat },
        occurrences(spec_nudges(k), Nudge::Left) == if k.a { 1nat } else { 0nat },
        occurrences(spec_nudges(k), Nudge::Forward) == if k.w { 1nat } else { 0nat },
        occurrences(spec_nudges(k), Nudge::Back) == if k.s { 1nat } else { 0nat },
        forall|i: int, j: int|
            0 <= i < j < spec_nudges(k).len() ==> nudge_rank(#[trigger] spec_nudges(k)[i])
                < nudge_rank(#[trigger] spec_nudges(k)[j]),
{
    let e = Seq::<Nudge>::empty();
    let s0 = e + when(k.z, Nudge::Up);
    let s1 = s0 + when(k.d, Nudge::Right);
    let s2 = s1 + when(k.a, Nudge::Left);
    let s3 = s2 + when(k.w, Nudge::Forward);
    let s4 = s3 + when(k.s, Nudge::Back);
    assert(e + when(k.z, Nudge::Up) =~= when(k.z, Nudge::Up));
    assert(s4 == spec_nudges(k));
    assert(occurrences(e, Nudge::Up) == 0);
    assert forall|m: Nudge| #[trigger] occurrences(s4, m) == (if k.z && m == Nudge::Up { 1nat } else { 0nat })
        + (if k.d && m == Nudge::Right { 1nat } else { 0nat })
        + (if k.a && m == Nudge::Left { 1nat } else { 0nat })
        + (if k.w && m == Nudge::Forward { 1nat } else { 0nat })
        + (if k.s && m == Nudge::Back { 1nat } else { 0nat }) by {
        assert(occurrences(e, m) == 0);
        lemma_append_when(e, k.z, Nudge::Up, m);
        lemma_append_when(s0, k.d, Nudge::Right, m);
        lemma_append_when(s1, k.a, Nudge::Left, m);
        lemma_append_when(s2, k.w, Nudge::Forward, m);
        lemma_append_when(s3, k.s, Nudge::Back, m);
    }
    assert(occurrences(s4, Nudge::Up) == if k.z { 1nat } else { 0nat });
    assert(occurrences(s4, Nudge::Right) == if k.d { 1nat } else { 0nat });
    assert(occurrences(s4, Nudge::Left) == if k.a { 1nat } else { 0nat });
    assert(occurrences(s4, Nudge::Forward) == if k.w { 1nat } else { 0nat });
    assert(occurrences(s4, Nudge::Back) == if k.s { 1nat } else { 0nat });
}

/// The animation rule: the throwing clip is played exactly when Space was just
/// pressed, the walking clip exactly when W, A, S or D was just pressed, and the
/// animation is paused exactly when no walking key was just pressed and none of
/// W, A, S, D and Space is held; nothing else is ever commanded.
pub proof fn lemma_animation_rule(input: KeyInput)
    ensures
        spec_animation_commands(input).contains(AnimationCommand::Play(FIRE_CLIP))
            <==> input.just_pressed.space,
        spec_animation_commands(input).contains(AnimationCommand::Play(RUN_CLIP)) <==> (
        input.just_pressed.w || input.just_pressed.a || input.just_pressed.s
            || input.just_pressed.d),
        spec_animation_commands(input).contains(AnimationCommand::Pause) <==> (!(
        input.just_pressed.w || input.just_pressed.a || input.just_pressed.s
            || input.just_pressed.d) && !(input.pressed.w || input.pressed.a || input.pressed.s
            || input.pressed.d || input.pressed.space)),
        forall|i: int|
            0 <= i < spec_animation_commands(input).len() ==> {
                let c = #[trigger] spec_animation_commands(input)[i];
                c == AnimationCommand::Play(FIRE_CLIP) || c == AnimationCommand::Play(RUN_CLIP)
                    || c == AnimationCommand::Pause
            },
{
    let fire = AnimationCommand::Play(FIRE_CLIP);
    let run = AnimationCommand::Play(RUN_CLIP);
    let pause = AnimationCommand::Pause;
    let j = input.just_pressed;
    let p = input.pressed;
    let first: Seq<AnimationCommand> = if j.space { seq![fire] } else { seq![] };
    let second: Seq<AnimationCommand> = if j.w || j.a || j.s || j.d {
        seq![run]
    } else if !(p.w || p.a || p.s || p.d || p.space) {
        seq![pause]
    } else {
        seq![]
    };
    let all = spec_animation_commands(input);
    assert(all =~= first + second);
    assert(forall|i: int| 0 <= i < first.len() ==> first[i] == fire);
    assert(forall|i: int| 0 <= i < second.len() ==> second[i] == run || second[i] == pause);
    assert(forall|i: int| 0 <= i < all.len() ==> (i < first.len() ==> all[i] == first[i]) && (
    i >= first.len() ==> all[i] == second[i - first.len()]));
    if j.space {
        assert(all[0] == fire);
    }
    if second.len() > 0 {
        assert(all[first.len() as int] == second[0]);
    }
}

} // verus!
