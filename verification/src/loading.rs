use vstd::prelude::*;
use vstd::string::StringExecFns;

verus! {

/// Whether the scene that the game waits for has been processed.
pub struct Run(pub bool);

/// An entity of a loaded scene together with the mesh it renders,
/// or an entity that is to receive a collider built from that mesh.
#[derive(Clone, Copy, PartialEq, Eq, Structural)]
pub struct MeshEntity {
    pub entity: u64,
    pub mesh: u64,
}

/// `me`, once for every primitive mesh of `prims` that is the mesh `me` renders.
pub open spec fn entity_matches(me: MeshEntity, prims: Seq<u64>) -> Seq<MeshEntity>
    decreases prims.len(),
{
    if prims.len() == 0 {
        seq![]
    } else {
        entity_matches(me, prims.drop_last()) + if prims.last() == me.mesh {
            seq![me]
        } else {
            seq![]
        }
    }
}

/// The colliders that one glTF mesh with primitives `prims` gives to the entities of `scene`,
/// entity by entity.
pub open spec fn mesh_attachments(scene: Seq<MeshEntity>, prims: Seq<u64>) -> Seq<MeshEntity>
    decreases scene.len(),
{
    if scene.len() == 0 {
        seq![]
    } else {
        mesh_attachments(scene.drop_last(), prims) + entity_matches(scene.last(), prims)
    }
}

/// The colliders that all glTF meshes give, mesh by mesh; a mesh that is not loaded
/// (`None`) gives none.
pub open spec fn all_attachments(meshes: Seq<Option<Seq<u64>>>, scene: Seq<MeshEntity>) -> Seq<
    MeshEntity,
>
    decreases meshes.len(),
{
    if meshes.len() == 0 {
        seq![]
    } else {
        all_attachments(meshes.drop_last(), scene) + match meshes.last() {
            Some(prims) => mesh_attachments(scene, prims),
            None => seq![],
        }
    }
}

/// The run flag after looking at every glTF mesh in turn, starting from `run`:
/// a mesh that is not loaded clears it, a loaded mesh sets it when the scene has
/// an entity with a mesh, and leaves it otherwise.
pub open spec fn run_after(meshes: Seq<Option<Seq<u64>>>, scene: Seq<MeshEntity>, run: bool) -> bool
    decreases meshes.len(),
{
    if meshes.len() == 0 {
        run
    } else {
        match meshes.last() {
            Some(_) => if scene.len() > 0 {
                true
            } else {
                run_after(meshes.drop_last(), scene, run)
            },
            None => false,
        }
    }
}

impl Run {
    /// One frame of waiting for a scene: the scene is processed on the first frame on
    /// which it is loaded, and never again once that has happened.
    pub fn scene_step(&mut self, scene_loaded: bool) -> (process: bool)
        ensures
            process == (!old(self).0 && scene_loaded),
            final(self).0 == (old(self).0 || scene_loaded),
    {
        if !self.0 {
            if scene_loaded {
                self.0 = true;
                true
            } else {
                self.0 = false;
                false
            }
        } else {
            false
        }
    }
}

fn push_entity_matches(out: &mut Vec<MeshEntity>, me: MeshEntity, prims: &Vec<u64>)
    ensures
        final(out)@ == old(out)@ + entity_matches(me, prims@),
{
    let mut j: usize = 0;
    while j < prims.len()
        invariant
            j <= prims@.len(),
            out@ == old(out)@ + entity_matches(me, prims@.take(j as int)),
        decreases prims@.len() - j,
    {
        assert(prims@.take(j + 1).drop_last() =~= prims@.take(j as int));
        if prims[j] == me.mesh {
            out.push(me);
        }
        j += 1;
        assert(out@ =~= old(out)@ + entity_matches(me, prims@.take(j as int)));
    }
    assert(prims@.take(prims@.len() as int) =~= prims@);
}

fn push_mesh_attachments(out: &mut Vec<MeshEntity>, scene: &Vec<MeshEntity>, prims: &Vec<u64>)
    ensures
        final(out)@ == old(out)@ + mesh_attachments(scene@, prims@),
{
    let mut k: usize = 0;
    while k < scene.len()
        invariant
            k <= scene@.len(),
            out@ == old(out)@ + mesh_attachments(scene@.take(k as int), prims@),
        decreases scene@.len() - k,
    {
        assert(scene@.take(k + 1).drop_last() =~= scene@.take(k as int));
        push_entity_matches(out, scene[k], prims);
        k += 1;
        assert(out@ =~= old(out)@ + mesh_attachments(scene@.take(k as int), prims@));
    }
    assert(scene@.take(scene@.len() as int) =~= scene@);
}

/// One frame of attaching colliders to the entities of a loaded scene.
///
/// Nothing happens once `run` is set. Otherwise, when the scene is not loaded
/// (`scene` is `None`) `run` stays clear; when it is, each glTF mesh of `meshes`
/// (its primitive meshes, or `None` while it is not loaded) is matched against
/// the scene's entities, and every (entity, primitive) pair whose meshes agree
/// gives one collider, in that order.
pub fn plan_mesh_colliders(
    run: &mut Run,
    scene: &Option<Vec<MeshEntity>>,
    meshes: &Vec<Option<Vec<u64>>>,
) -> (attach: Vec<MeshEntity>)
    ensures
        old(run).0 ==> attach@.len() == 0 && final(run).0 == old(run).0,
        !old(run).0 ==> match scene {
            None => attach@.len() == 0 && final(run).0 == false,
            Some(s) => attach@ == all_attachments(meshes.deep_view(), s@) && final(run).0
                == run_after(meshes.deep_view(), s@, false) && final(run).0 == (meshes@.len() > 0
                && s@.len() > 0 && meshes@.last() is Some),
        },
{
    let mut attach: Vec<MeshEntity> = Vec::new();
    if run.0 {
        return attach;
    }
    match scene {
        None => {
            run.0 = false;
            attach
        },
        Some(s) => {
            let ghost dv = meshes.deep_view();
            let mut i: usize = 0;
            while i < meshes.len()
                invariant
                    i <= meshes@.len(),
                    dv == meshes.deep_view(),
                    dv.len() == meshes@.len(),
                    attach@ == all_attachments(dv.take(i as int), s@),
                    run.0 == run_after(dv.take(i as int), s@, false),
                decreases meshes@.len() - i,
            {
                assert(dv.take(i + 1).drop_last() =~= dv.take(i as int));
                assert(dv.take(i + 1).last() == dv[i as int]);
                match &meshes[i] {
                    Some(prims) => {
                        assert(dv[i as int] == Some(prims@));
                        push_mesh_attachments(&mut attach, s, prims);
                        if s.len() > 0 {
                            run.0 = true;
                        }
                    },
                    None => {
                        run.0 = false;
                    },
                }
                i += 1;
            }
            assert(dv.take(meshes@.len() as int) =~= dv);
            proof {
                lemma_run_after_closed(dv, s@);
                if meshes@.len() > 0 {
                    assert(dv.last() == meshes@.last().deep_view());
                }
            }
            attach
        },
    }
}

/// The decimal digit `d` (`d < 10`) as a character.
pub open spec fn digit_char(d: nat) -> char {
    if d == 0 { '0' }
    else if d == 1 { '1' }
    else if d == 2 { '2' }
    else if d == 3 { '3' }
    else if d == 4 { '4' }
    else if d == 5 { '5' }
    else if d == 6 { '6' }
    else if d == 7 { '7' }
    else if d == 8 { '8' }
    else { '9' }
}

/// The decimal notation of `n`, without leading zeros.
pub open spec fn decimal(n: nat) -> Seq<char>
    decreases n,
{
    if n < 10 {
        seq![digit_char(n)]
    } else {
        decimal(n / 10) + seq![digit_char(n % 10)]
    }
}

/// The characters `#Mesh` that separate an asset path from a mesh's index in a label.
pub open spec fn mesh_label_infix() -> Seq<char> {
    seq!['#', 'M', 'e', 's', 'h']
}

fn digit_str(d: usize) -> (s: &'static str)
    requires
        d < 10,
    ensures
        s@ == seq![digit_char(d as nat)],
{
    if d == 0 {
        proof { reveal_strlit("0"); }
        "0"
    } else if d == 1 {
        proof { reveal_strlit("1"); }
        "1"
    } else if d == 2 {
        proof { reveal_strlit("2"); }
        "2"
    } else if d == 3 {
        proof { reveal_strlit("3"); }
        "3"
    } else if d == 4 {
        proof { reveal_strlit("4"); }
        "4"
    } else if d == 5 {
        proof { reveal_strlit("5"); }
        "5"
    } else if d == 6 {
        proof { reveal_strlit("6"); }
        "6"
    } else if d == 7 {
        proof { reveal_strlit("7"); }
        "7"
    } else if d == 8 {
        proof { reveal_strlit("8"); }
        "8"
    } else {
        proof { reveal_strlit("9"); }
        "9"
    }
}

fn push_decimal(s: &mut String, n: usize)
    ensures
        final(s)@ == old(s)@ + decimal(n as nat),
    decreases n,
{
    if n >= 10 {
        push_decimal(s, n / 10);
    }
    s.append(digit_str(n % 10));
    assert(s@ =~= old(s)@ + decimal(n as nat));
}

/// The label under which the glTF loader publishes mesh number `index` of the
/// asset at `path`: the path, `#Mesh`, and the index in decimal.
pub fn gltf_mesh_label(path: &str, index: usize) -> (label: String)
    ensures
        label@ == path@ + mesh_label_infix() + decimal(index as nat),
{
    let mut label = String::from_str(path);
    proof { reveal_strlit("#Mesh"); }
    label.append("#Mesh");
    push_decimal(&mut label, index);
    assert(label@ =~= path@ + mesh_label_infix() + decimal(index as nat));
    label
}

/// The run flag after a series of frames on which the scene was loaded or not.
pub open spec fn run_after_frames(run: bool, frames: Seq<bool>) -> bool
    decreases frames.len(),
{
    if frames.len() == 0 {
        run
    } else {
        run_after_frames(run, frames.drop_last()) || frames.last()
    }
}

/// How many of a series of frames process the scene, each frame going through
/// `Run::scene_step`.
pub open spec fn frames_processed(run: bool, frames: Seq<bool>) -> nat
    decreases frames.len(),
{
    if frames.len() == 0 {
        0
    } else {
        frames_processed(run, frames.drop_last()) + if !run_after_frames(run, frames.drop_last())
            && frames.last() {
            1nat
        } else {
            0nat
        }
    }
}

/// Over any series of frames the scene is processed once if it was not processed
/// before and is loaded on some frame, and never otherwise.
pub proof fn lemma_processed_once(run: bool, frames: Seq<bool>)
    ensures
        frames_processed(run, frames) == if !run && frames.contains(true) { 1nat } else { 0nat },
        run_after_frames(run, frames) == (run || frames.contains(true)),
    decreases frames.len(),
{
    if frames.len() > 0 {
        let init = frames.drop_last();
        lemma_processed_once(run, init);
        if init.contains(true) {
            let j = choose|j: int| 0 <= j < init.len() && init[j] == true;
            assert(frames[j] == true);
        }
        if frames.last() {
            assert(frames[frames.len() - 1] == true);
        }
        if frames.contains(true) && !frames.last() {
            let j = choose|j: int| 0 <= j < frames.len() && frames[j] == true;
            assert(init[j] == true);
        }
    }
}

/// When every glTF mesh is loaded and the scene has an entity with a mesh, the
/// run flag ends set, so the colliders are attached on one frame only.
pub proof fn lemma_all_loaded_sets_run(meshes: Seq<Option<Seq<u64>>>, scene: Seq<MeshEntity>, run: bool)
    requires
        meshes.len() > 0,
        scene.len() > 0,
        forall|i: int| 0 <= i < meshes.len() ==> (#[trigger] meshes[i]) is Some,
    ensures
        run_after(meshes, scene, run),
{
    assert(meshes.last() is Some);
}

/// Whether `mesh` is a primitive of a loaded glTF mesh.
pub open spec fn has_primitive(m: Option<Seq<u64>>, mesh: u64) -> bool {
    match m {
        Some(prims) => prims.contains(mesh),
        None => false,
    }
}

/// Every collider goes to an entity of the scene, built from the mesh that entity
/// renders, and that mesh is a primitive of one of the loaded glTF meshes.
pub proof fn lemma_attachments_sound(meshes: Seq<Option<Seq<u64>>>, scene: Seq<MeshEntity>, x: MeshEntity)
    requires
        all_attachments(meshes, scene).contains(x),
    ensures
        scene.contains(x),
        exists|i: int| 0 <= i < meshes.len() && has_primitive(#[trigger] meshes[i], x.mesh),
    decreases meshes.len(),
{
    let init = meshes.drop_last();
    let a = all_attachments(init, scene);
    let k = choose|k: int| 0 <= k < all_attachments(meshes, scene).len() && all_attachments(meshes, scene)[k] == x;
    if k < a.len() {
        assert(a[k] == x);
        lemma_attachments_sound(init, scene, x);
        let i = choose|i: int| 0 <= i < init.len() && has_primitive(#[trigger] init[i], x.mesh);
        assert(meshes[i] == init[i]);
    } else {
        match meshes.last() {
            Some(prims) => {
                let b = mesh_attachments(scene, prims);
                assert(b[k - a.len()] == x);
                lemma_mesh_attachments_sound(scene, prims, x);
                assert(meshes[meshes.len() - 1] == meshes.last());
            },
            None => {},
        }
    }
}

proof fn lemma_mesh_attachments_sound(scene: Seq<MeshEntity>, prims: Seq<u64>, x: MeshEntity)
    requires
        mesh_attachments(scene, prims).contains(x),
    ensures
        scene.contains(x),
        prims.contains(x.mesh),
    decreases scene.len(),
{
    let init = scene.drop_last();
    let a = mesh_attachments(init, prims);
    let k = choose|k: int| 0 <= k < mesh_attachments(scene, prims).len() && mesh_attachments(scene, prims)[k] == x;
    if k < a.len() {
        assert(a[k] == x);
        lemma_mesh_attachments_sound(init, prims, x);
        let j = choose|j: int| 0 <= j < init.len() && init[j] == x;
        assert(scene[j] == x);
    } else {
        let b = entity_matches(scene.last(), prims);
        assert(b[k - a.len()] == x);
        lemma_entity_matches_sound(scene.last(), prims, x);
        assert(scene[scene.len() - 1] == x);
    }
}

proof fn lemma_entity_matches_sound(me: MeshEntity, prims: Seq<u64>, x: MeshEntity)
    requires
        entity_matches(me, prims).contains(x),
    ensures
        x == me,
        prims.contains(me.mesh),
    decreases prims.len(),
{
    let init = prims.drop_last();
    let a = entity_matches(me, init);
    let k = choose|k: int| 0 <= k < entity_matches(me, prims).len() && entity_matches(me, prims)[k] == x;
    if k < a.len() {
        assert(a[k] == x);
        lemma_entity_matches_sound(me, init, x);
        let j = choose|j: int| 0 <= j < init.len() && init[j] == me.mesh;
        assert(prims[j] == me.mesh);
    } else {
        assert(prims[prims.len() - 1] == me.mesh);
    }
}

/// Starting from a clear flag, the run flag ends set exactly when there is a glTF
/// mesh, the scene has an entity with a mesh, and the last glTF mesh is loaded.
pub proof fn lemma_run_after_closed(meshes: Seq<Option<Seq<u64>>>, scene: Seq<MeshEntity>)
    ensures
        run_after(meshes, scene, false) == (meshes.len() > 0 && scene.len() > 0
            && meshes.last() is Some),
    decreases meshes.len(),
{
    if meshes.len() > 0 {
        lemma_run_after_closed(meshes.drop_last(), scene);
    }
}

/// The number of times `x` occurs in `s`.
pub open spec fn occurrences<T>(s: Seq<T>, x: T) -> nat
    decreases s.len(),
{
    if s.len() == 0 {
        0
    } else {
        occurrences(s.drop_last(), x) + if s.last() == x {
            1nat
        } else {
            0nat
        }
    }
}

/// The number of times `mesh` occurs among the primitives of the loaded glTF meshes.
pub open spec fn primitive_occurrences(meshes: Seq<Option<Seq<u64>>>, mesh: u64) -> nat
    decreases meshes.len(),
{
    if meshes.len() == 0 {
        0
    } else {
        primitive_occurrences(meshes.drop_last(), mesh) + match meshes.last() {
            Some(prims) => occurrences(prims, mesh),
            None => 0nat,
        }
    }
}

pub proof fn lemma_occurrences_add<T>(a: Seq<T>, b: Seq<T>, x: T)
    ensures
        occurrences(a + b, x) == occurrences(a, x) + occurrences(b, x),
    decreases b.len(),
{
    if b.len() == 0 {
        assert(a + b =~= a);
    } else {
        lemma_occurrences_add(a, b.drop_last(), x);
        assert((a + b).drop_last() =~= a + b.drop_last());
        assert((a + b).last() == b.last());
    }
}

pub proof fn lemma_occurrences_contains<T>(s: Seq<T>, x: T)
    ensures
        (occurrences(s, x) > 0) <==> s.contains(x),
    decreases s.len(),
{
    if s.len() > 0 {
        let init = s.drop_last();
        lemma_occurrences_contains(init, x);
        if init.contains(x) {
            let j = choose|j: int| 0 <= j < init.len() && init[j] == x;
            assert(s[j] == x);
        }
        if s.last() == x {
            assert(s[s.len() - 1] == x);
        }
        if s.contains(x) && s.last() != x {
            let j = choose|j: int| 0 <= j < s.len() && s[j] == x;
            assert(init[j] == x);
        }
    }
}

proof fn lemma_entity_matches_count(me: MeshEntity, prims: Seq<u64>, x: MeshEntity)
    ensures
        occurrences(entity_matches(me, prims), x) == if x == me {
            occurrences(prims, me.mesh)
        } else {
            0
        },
    decreases prims.len(),
{
    if prims.len() > 0 {
        let tail = if prims.last() == me.mesh { seq![me] } else { seq![] };
        lemma_entity_matches_count(me, prims.drop_last(), x);
        lemma_occurrences_add(entity_matches(me, prims.drop_last()), tail, x);
        reveal_with_fuel(occurrences, 2);
    }
}

proof fn lemma_mesh_attachments_count(scene: Seq<MeshEntity>, prims: Seq<u64>, x: MeshEntity)
    ensures
        occurrences(mesh_attachments(scene, prims), x) == occurrences(scene, x) * occurrences(
            prims,
            x.mesh,
        ),
    decreases scene.len(),
{
    if scene.len() > 0 {
        let a = occurrences(scene.drop_last(), x);
        let c = occurrences(prims, x.mesh);
        lemma_mesh_attachments_count(scene.drop_last(), prims, x);
        lemma_occurrences_add(
            mesh_attachments(scene.drop_last(), prims),
            entity_matches(scene.last(), prims),
            x,
        );
        lemma_entity_matches_count(scene.last(), prims, x);
        assert(occurrences(scene, x) == a + if scene.last() == x { 1nat } else { 0nat });
        if scene.last() == x {
            assert((a + 1) * c == a * c + c) by (nonlinear_arith);
            assert(occurrences(mesh_attachments(scene, prims), x) == a * c + c);
        } else {
            assert(occurrences(mesh_attachments(scene, prims), x) == a * c);
        }
    } else {
        let c = occurrences(prims, x.mesh);
        assert(0 * c == 0) by (nonlinear_arith);
    }
}

/// Each entity of the scene gets, for the mesh it renders, one collider per
/// occurrence of that mesh among the primitives of the loaded glTF meshes (and one
/// such set per time it occurs in the scene).
pub proof fn lemma_attachments_count(meshes: Seq<Option<Seq<u64>>>, scene: Seq<MeshEntity>, x: MeshEntity)
    ensures
        occurrences(all_attachments(meshes, scene), x) == occurrences(scene, x)
            * primitive_occurrences(meshes, x.mesh),
    decreases meshes.len(),
{
    if meshes.len() > 0 {
        let s = occurrences(scene, x);
        let a = primitive_occurrences(meshes.drop_last(), x.mesh);
        lemma_attachments_count(meshes.drop_last(), scene, x);
        let tail = match meshes.last() {
            Some(prims) => mesh_attachments(scene, prims),
            None => seq![],
        };
        lemma_occurrences_add(all_attachments(meshes.drop_last(), scene), tail, x);
        match meshes.last() {
            Some(prims) => {
                let b = occurrences(prims, x.mesh);
                lemma_mesh_attachments_count(scene, prims, x);
                assert(s * a + s * b == s * (a + b)) by (nonlinear_arith);
                assert(primitive_occurrences(meshes, x.mesh) == a + b);
                assert(occurrences(all_attachments(meshes, scene), x) == s * a + s * b);
            },
            None => {
                assert(occurrences(tail, x) == 0);
            },
        }
    } else {
        let s = occurrences(scene, x);
        assert(s * 0 == 0) by (nonlinear_arith);
    }
}

proof fn lemma_primitive_occurrences_positive(meshes: Seq<Option<Seq<u64>>>, i: int, mesh: u64)
    requires
        0 <= i < meshes.len(),
        has_primitive(meshes[i], mesh),
    ensures
        primitive_occurrences(meshes, mesh) > 0,
    decreases meshes.len(),
{
    if i < meshes.len() - 1 {
        assert(meshes.drop_last()[i] == meshes[i]);
        lemma_primitive_occurrences_positive(meshes.drop_last(), i, mesh);
    } else {
        match meshes.last() {
            Some(prims) => lemma_occurrences_contains(prims, mesh),
            None => {},
        }
    }
}

/// Every entity of the scene whose mesh is a primitive of a loaded glTF mesh gets a
/// collider.
pub proof fn lemma_attachments_complete(
    meshes: Seq<Option<Seq<u64>>>,
    scene: Seq<MeshEntity>,
    x: MeshEntity,
    i: int,
)
    requires
        scene.contains(x),
        0 <= i < meshes.len(),
        has_primitive(meshes[i], x.mesh),
    ensures
        all_attachments(meshes, scene).contains(x),
{
    lemma_occurrences_contains(scene, x);
    lemma_primitive_occurrences_positive(meshes, i, x.mesh);
    lemma_attachments_count(meshes, scene, x);
    let s = occurrences(scene, x);
    let p = primitive_occurrences(meshes, x.mesh);
    assert(s * p > 0) by (nonlinear_arith)
        requires
            s > 0,
            p > 0,
    ;
    lemma_occurrences_contains(all_attachments(meshes, scene), x);
}

/// The value of a decimal digit character (`'0'` to `'9'`).
pub open spec fn digit_value(c: char) -> nat {
    (c as u32 - '0' as u32) as nat
}

/// Whether `c` is one of the characters `'0'` to `'9'`.
pub open spec fn is_digit(c: char) -> bool {
    '0' <= c && c <= '9'
}

/// The number that the decimal digits `s` stand for, most significant first.
pub open spec fn decimal_value(s: Seq<char>) -> nat
    decreases s.len(),
{
    if s.len() == 0 {
        0
    } else {
        decimal_value(s.drop_last()) * 10 + digit_value(s.last())
    }
}

proof fn lemma_digit_char(d: nat)
    requires
        d < 10,
    ensures
        is_digit(digit_char(d)),
        digit_value(digit_char(d)) == d,
        (digit_char(d) == '0') <==> d == 0,
{
}

/// `decimal(n)` is the usual decimal notation of `n`: a non-empty string of digits,
/// with no leading zero unless `n` is zero, whose value read back in base ten is `n`.
pub proof fn lemma_decimal_notation(n: nat)
    ensures
        decimal(n).len() > 0,
        forall|i: int| 0 <= i < decimal(n).len() ==> is_digit(#[trigger] decimal(n)[i]),
        decimal_value(decimal(n)) == n,
        decimal(n)[0] == '0' <==> n == 0,
    decreases n,
{
    if n < 10 {
        lemma_digit_char(n);
        assert(seq![digit_char(n)].drop_last() =~= Seq::<char>::empty());
        assert(decimal_value(Seq::<char>::empty()) == 0);
        assert(decimal_value(decimal(n)) == decimal_value(Seq::<char>::empty()) * 10 + n);
    } else {
        let q = n / 10;
        let r = n % 10;
        lemma_decimal_notation(q);
        lemma_digit_char(r);
        let d = decimal(q);
        let s = d + seq![digit_char(r)];
        assert(s.drop_last() =~= d);
        assert(s.last() == digit_char(r));
        assert(s[0] == d[0]);
        assert forall|i: int| 0 <= i < s.len() implies is_digit(#[trigger] s[i]) by {
            if i < d.len() {
                assert(s[i] == d[i]);
            }
        }
        assert(q * 10 + r == n);
        assert(decimal_value(s) == decimal_value(d) * 10 + r);
    }
}

} // verus!
