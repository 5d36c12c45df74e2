//! The battle state machine: turns the per-tick extracted names into
//! confirmed encounters.
use vstd::prelude::*;
use crate::pokemon::{extract_pokemon_name, extracted_name};

verus! {

/// The phase of encounter detection.
pub enum BattlePhase {
    /// Waiting for a name to appear.
    Idle,
    /// A name was seen once.
    PokemonDetected { name: String },
    /// The same name was seen on two consecutive ticks.
    BattleActive { name: String },
    /// Ticks without a name are being counted before the encounter is confirmed.
    BattleEnding { name: String, empty_count: u32 },
}

/// The mathematical value of a [`BattlePhase`].
pub ghost enum PhaseView {
    Idle,
    Detected(Seq<char>),
    Active(Seq<char>),
    Ending(Seq<char>, nat),
}

impl View for BattlePhase {
    type V = PhaseView;

    open spec fn view(&self) -> PhaseView {
        match self {
            BattlePhase::Idle => PhaseView::Idle,
            BattlePhase::PokemonDetected { name } => PhaseView::Detected(name@),
            BattlePhase::BattleActive { name } => PhaseView::Active(name@),
            BattlePhase::BattleEnding { name, empty_count } => PhaseView::Ending(
                name@,
                *empty_count as nat,
            ),
        }
    }
}

pub open spec fn opt_view(o: Option<String>) -> Option<Seq<char>> {
    match o {
        Some(s) => Some(s@),
        None => None,
    }
}

/// One tick of the state machine: the next phase, and the name whose
/// encounter is confirmed on this tick, if any. The first tick without a
/// name only enters `Ending` with a count of 1, so a threshold of 0, 1 or 2
/// confirms on the second such tick.
pub open spec fn transition(p: PhaseView, input: Option<Seq<char>>, threshold: nat) -> (
    PhaseView,
    Option<Seq<char>>,
) {
    match p {
        PhaseView::Idle => match input {
            Some(m) => (PhaseView::Detected(m), None),
            None => (PhaseView::Idle, None),
        },
        PhaseView::Detected(n) => match input {
            Some(m) => if m == n {
                (PhaseView::Active(n), None)
            } else {
                (PhaseView::Detected(m), None)
            },
            None => (PhaseView::Ending(n, 1), None),
        },
        PhaseView::Active(n) => match input {
            Some(_) => (PhaseView::Active(n), None),
            None => (PhaseView::Ending(n, 1), None),
        },
        PhaseView::Ending(n, c) => match input {
            Some(m) => (PhaseView::Detected(m), None),
            None => if c + 1 >= threshold {
                (PhaseView::Idle, Some(n))
            } else {
                (PhaseView::Ending(n, c + 1), None)
            },
        },
    }
}

/// Phases that the machine can be in: names are non-empty and an ending
/// count lies in `1..u32::MAX`.
pub open spec fn phase_ok(p: PhaseView) -> bool {
    match p {
        PhaseView::Idle => true,
        PhaseView::Detected(n) => n.len() > 0,
        PhaseView::Active(n) => n.len() > 0,
        PhaseView::Ending(n, c) => n.len() > 0 && 1 <= c < u32::MAX,
    }
}

/// Tracks encounter detection across ticks.
pub struct BattleState {
    phase: BattlePhase,
}

impl View for BattleState {
    type V = PhaseView;

    closed spec fn view(&self) -> PhaseView {
        self.phase@
    }
}

impl BattleState {
    #[verifier::type_invariant]
    closed spec fn inv(&self) -> bool {
        phase_ok(self.phase@)
    }

    /// A state machine in the idle phase.
    pub fn new() -> (r: Self)
        ensures
            r@ == PhaseView::Idle,
    {
        BattleState { phase: BattlePhase::Idle }
    }

    /// Returns to the idle phase, dropping any pending name.
    pub fn reset(&mut self)
        ensures
            final(self)@ == PhaseView::Idle,
    {
        self.phase = BattlePhase::Idle;
    }

    /// The current phase.
    pub fn phase(&self) -> (r: &BattlePhase)
        ensures
            r@ == self@,
    {
        &self.phase
    }

    /// Feeds one tick's extracted name (or its absence) to the machine and
    /// returns the name whose encounter this tick confirms.
    pub fn observe(&mut self, extracted: Option<String>, empty_threshold: u32) -> (r: Option<String>)
        requires
            extracted matches Some(n) ==> n@.len() > 0,
        ensures
            (final(self)@, opt_view(r)) == transition(
                old(self)@,
                opt_view(extracted),
                empty_threshold as nat,
            ),
            phase_ok(final(self)@),
    {
        proof {
            use_type_invariant(&*self);
        }
        let next: BattlePhase;
        let mut counted: Option<String> = None;
        match &self.phase {
            BattlePhase::Idle => {
                match extracted {
                    Some(m) => {
                        next = BattlePhase::PokemonDetected { name: m };
                    },
                    None => {
                        next = BattlePhase::Idle;
                    },
                }
            },
            BattlePhase::PokemonDetected { name } => {
                match extracted {
                    Some(m) => {
                        if m == *name {
                            next = BattlePhase::BattleActive { name: m };
                        } else {
                            next = BattlePhase::PokemonDetected { name: m };
                        }
                    },
                    None => {
                        next = BattlePhase::BattleEnding { name: name.clone(), empty_count: 1 };
                    },
                }
            },
            BattlePhase::BattleActive { name } => {
                match extracted {
                    Some(_) => {
                        next = BattlePhase::BattleActive { name: name.clone() };
                    },
                    None => {
                        next = BattlePhase::BattleEnding { name: name.clone(), empty_count: 1 };
                    },
                }
            },
            BattlePhase::BattleEnding { name, empty_count } => {
                match extracted {
                    Some(m) => {
                        next = BattlePhase::PokemonDetected { name: m };
                    },
                    None => {
                        let new_count = *empty_count + 1;
                        if new_count >= empty_threshold {
                            counted = Some(name.clone());
                            next = BattlePhase::Idle;
                        } else {
                            next = BattlePhase::BattleEnding {
                                name: name.clone(),
                                empty_count: new_count,
                            };
                        }
                    },
                }
            },
        }
        self.phase = next;
        counted
    }

    /// Extracts the name from one tick's recognized text and feeds it to the
    /// machine; returns the name whose encounter this tick confirms.
    pub fn update(&mut self, text: &str, empty_threshold: u32) -> (r: Option<String>)
        ensures
            (final(self)@, opt_view(r)) == transition(
                old(self)@,
                extracted_name(text@),
                empty_threshold as nat,
            ),
    {
        let extracted = extract_pokemon_name(text);
        self.observe(extracted, empty_threshold)
    }
}

/// The phase after feeding `inputs` to the machine from `p`, and what each
/// tick emitted.
pub open spec fn run(p: PhaseView, inputs: Seq<Option<Seq<char>>>, threshold: nat) -> (
    PhaseView,
    Seq<Option<Seq<char>>>,
)
    decreases inputs.len(),
{
    if inputs.len() == 0 {
        (p, Seq::empty())
    } else {
        let (q, out) = run(p, inputs.drop_last(), threshold);
        let (q2, e) = transition(q, inputs.last(), threshold);
        (q2, out.push(e))
    }
}

/// The name a phase holds, if any.
pub open spec fn phase_name(p: PhaseView) -> Option<Seq<char>> {
    match p {
        PhaseView::Idle => None,
        PhaseView::Detected(n) => Some(n),
        PhaseView::Active(n) => Some(n),
        PhaseView::Ending(n, _) => Some(n),
    }
}

/// The ticks: a name twice, then `empties` ticks without one.
pub open spec fn encounter_ticks(a: Seq<char>, empties: nat) -> Seq<Option<Seq<char>>> {
    seq![Some(a), Some(a)] + Seq::new(empties, |i: int| None::<Seq<char>>)
}

proof fn lemma_encounter_prefix(a: Seq<char>, j: nat, threshold: nat)
    requires
        1 <= j < threshold,
    ensures
        run(PhaseView::Idle, encounter_ticks(a, j), threshold) == (
            PhaseView::Ending(a, j),
            Seq::new(j + 2, |i: int| None::<Seq<char>>),
        ),
    decreases j,
{
    let ins = encounter_ticks(a, j);
    if j == 1 {
        let s0 = ins.drop_last().drop_last().drop_last();
        let s1 = ins.drop_last().drop_last();
        let s2 = ins.drop_last();
        assert(s0 =~= Seq::<Option<Seq<char>>>::empty());
        assert(s1 =~= seq![Some(a)]);
        assert(s2 =~= seq![Some(a), Some(a)]);
        let r0 = run(PhaseView::Idle, s0, threshold);
        assert(r0 == (PhaseView::Idle, Seq::<Option<Seq<char>>>::empty()));
        let r1 = run(PhaseView::Idle, s1, threshold);
        assert(s1.drop_last() == s0);
        assert(r1.0 == PhaseView::Detected(a));
        assert(r1.1 =~= seq![None::<Seq<char>>]);
        let r2 = run(PhaseView::Idle, s2, threshold);
        assert(s2.drop_last() == s1);
        assert(r2.0 == PhaseView::Active(a));
        assert(r2.1 =~= seq![None::<Seq<char>>, None]);
        assert(ins.last() is None);
        assert(run(PhaseView::Idle, ins, threshold).1 =~= Seq::new(3, |i: int| None::<Seq<char>>));
    } else {
        lemma_encounter_prefix(a, (j - 1) as nat, threshold);
        assert(ins.drop_last() =~= encounter_ticks(a, (j - 1) as nat));
        assert(run(PhaseView::Idle, ins, threshold).1 =~= Seq::new(j + 2, |i: int| None::<Seq<char>>));
    }
}

/// A name seen on two ticks, then `threshold >= 2` ticks without a name,
/// from idle: exactly one count, of that name, on the last tick, and the
/// machine is idle again.
pub proof fn lemma_one_encounter_counted_once(a: Seq<char>, threshold: nat)
    requires
        threshold >= 2,
    ensures
        ({
            let (p, out) = run(PhaseView::Idle, encounter_ticks(a, threshold), threshold);
            &&& p == PhaseView::Idle
            &&& out.len() == threshold + 2
            &&& out[out.len() - 1] == Some(a)
            &&& forall|i: int| 0 <= i < out.len() - 1 ==> out[i] is None
        }),
{
    let k = (threshold - 1) as nat;
    lemma_encounter_prefix(a, k, threshold);
    assert(encounter_ticks(a, threshold).drop_last() =~= encounter_ticks(a, k));
    let (p, out) = run(PhaseView::Idle, encounter_ticks(a, threshold), threshold);
    assert forall|i: int| 0 <= i < out.len() - 1 implies out[i] is None by {
        assert(out[i] == Seq::new(k + 2, |i: int| None::<Seq<char>>)[i]);
    }
}

/// A name that is replaced by another before the machine moves on (from
/// `Detected` or `Ending`) is never counted, as long as it is not seen again.
pub proof fn lemma_superseded_name_never_counted(
    p: PhaseView,
    a: Seq<char>,
    b: Seq<char>,
    rest: Seq<Option<Seq<char>>>,
    threshold: nat,
)
    requires
        p is Detected || p is Ending,
        phase_name(p) == Some(a),
        b != a,
        forall|i: int| 0 <= i < rest.len() ==> rest[i] != Some(a),
    ensures
        forall|i: int|
            0 <= i < run(p, seq![Some(b)] + rest, threshold).1.len() ==> run(
                p,
                seq![Some(b)] + rest,
                threshold,
            ).1[i] != Some(a),
{
    let q = transition(p, Some(b), threshold).0;
    assert(phase_name(q) == Some(b));
    lemma_name_never_emitted(p, seq![Some(b)] + rest, a, threshold);
}

/// A name that the phase does not hold and that no input carries is never emitted.
proof fn lemma_name_never_emitted(
    p: PhaseView,
    inputs: Seq<Option<Seq<char>>>,
    a: Seq<char>,
    threshold: nat,
)
    requires
        inputs.len() > 0,
        transition(p, inputs[0], threshold).1 != Some(a),
        phase_name(transition(p, inputs[0], threshold).0) != Some(a),
        forall|i: int| 1 <= i < inputs.len() ==> inputs[i] != Some(a),
    ensures
        phase_name(run(p, inputs, threshold).0) != Some(a),
        forall|i: int| 0 <= i < run(p, inputs, threshold).1.len() ==> run(p, inputs, threshold).1[i] != Some(a),
        run(p, inputs, threshold).1.len() == inputs.len(),
    decreases inputs.len(),
{
    let d = inputs.drop_last();
    if d.len() == 0 {
        assert(d =~= Seq::<Option<Seq<char>>>::empty());
        assert(inputs.last() == inputs[0]);
    } else {
        assert forall|i: int| 1 <= i < d.len() implies d[i] != Some(a) by {
            assert(d[i] == inputs[i]);
        }
        assert(d[0] == inputs[0]);
        lemma_name_never_emitted(p, d, a, threshold);
        let (q, out) = run(p, d, threshold);
        assert(inputs.last() == inputs[inputs.len() - 1]);
        let r = run(p, inputs, threshold).1;
        assert forall|i: int| 0 <= i < r.len() implies r[i] != Some(a) by {
            if i < out.len() {
                assert(r[i] == out[i]);
            }
        }
    }
}

/// The phase after the first `i` ticks of `inputs`.
pub open spec fn phase_at(p: PhaseView, inputs: Seq<Option<Seq<char>>>, i: int, threshold: nat) -> PhaseView {
    run(p, inputs.take(i), threshold).0
}

proof fn lemma_run_prefix(p: PhaseView, inputs: Seq<Option<Seq<char>>>, threshold: nat)
    ensures
        run(p, inputs, threshold).1.len() == inputs.len(),
        forall|i: int|
            0 <= i < inputs.len() ==> #[trigger] run(p, inputs, threshold).1[i] == transition(
                phase_at(p, inputs, i, threshold),
                inputs[i],
                threshold,
            ).1,
        forall|i: int|
            0 <= i < inputs.len() ==> #[trigger] phase_at(p, inputs, i + 1, threshold) == transition(
                phase_at(p, inputs, i, threshold),
                inputs[i],
                threshold,
            ).0,
    decreases inputs.len(),
{
    if inputs.len() > 0 {
        let d = inputs.drop_last();
        lemma_run_prefix(p, d, threshold);
        assert forall|i: int| 0 <= i <= d.len() implies #[trigger] inputs.take(i) == d.take(i) by {
            assert(inputs.take(i) =~= d.take(i));
        }
        assert(inputs.take(inputs.len() as int) =~= inputs);
        assert(inputs.take(d.len() as int) =~= d);
        let out = run(p, inputs, threshold).1;
        assert forall|i: int| 0 <= i < inputs.len() implies #[trigger] out[i] == transition(
            phase_at(p, inputs, i, threshold),
            inputs[i],
            threshold,
        ).1 by {
            if i < d.len() {
                assert(out[i] == run(p, d, threshold).1[i]);
                assert(inputs[i] == d[i]);
            } else {
                assert(d.take(i) =~= d);
            }
        }
        assert forall|i: int| 0 <= i < inputs.len() implies #[trigger] phase_at(p, inputs, i + 1, threshold)
            == transition(phase_at(p, inputs, i, threshold), inputs[i], threshold).0 by {
            if i < d.len() {
                assert(phase_at(p, d, i + 1, threshold) == transition(phase_at(p, d, i, threshold), d[i], threshold).0);
                assert(inputs[i] == d[i]);
            } else {
                assert(inputs.take(i + 1).drop_last() =~= d.take(i));
            }
        }
    }
}

/// No tick without a name arrives while a name has been seen only once.
pub open spec fn no_single_sightings(inputs: Seq<Option<Seq<char>>>, threshold: nat) -> bool {
    forall|i: int|
        0 <= i < inputs.len() && #[trigger] phase_at(PhaseView::Idle, inputs, i, threshold) is Detected
            ==> inputs[i] is Some
}

proof fn lemma_ending_was_active(inputs: Seq<Option<Seq<char>>>, threshold: nat, i: int)
    requires
        0 <= i <= inputs.len(),
        no_single_sightings(inputs, threshold),
    ensures
        phase_at(PhaseView::Idle, inputs, i, threshold) matches PhaseView::Ending(n, _) ==> exists|j: int|
            0 <= j < i && #[trigger] phase_at(PhaseView::Idle, inputs, j, threshold) == PhaseView::Active(n),
    decreases i,
{
    lemma_run_prefix(PhaseView::Idle, inputs, threshold);
    if i > 0 {
        lemma_ending_was_active(inputs, threshold, i - 1);
        let k = i - 1;
        let q = phase_at(PhaseView::Idle, inputs, k, threshold);
        assert(phase_at(PhaseView::Idle, inputs, k + 1, threshold) == transition(q, inputs[k], threshold).0);
        if q is Detected {
            assert(inputs[k] is Some);
        }
    } else {
        assert(inputs.take(0) =~= Seq::<Option<Seq<char>>>::empty());
    }
}

/// Run from idle, and leaving out only the ticks without a name that come
/// right after a single sighting: every counted name was in an active
/// battle on an earlier tick.
pub proof fn lemma_counted_name_was_active(inputs: Seq<Option<Seq<char>>>, threshold: nat, i: int)
    requires
        no_single_sightings(inputs, threshold),
        0 <= i < inputs.len(),
        run(PhaseView::Idle, inputs, threshold).1[i] is Some,
    ensures
        exists|j: int|
            0 <= j < i && phase_at(PhaseView::Idle, inputs, j, threshold) == PhaseView::Active(
                run(PhaseView::Idle, inputs, threshold).1[i]->0,
            ),
{
    lemma_run_prefix(PhaseView::Idle, inputs, threshold);
    lemma_ending_was_active(inputs, threshold, i);
    let q = phase_at(PhaseView::Idle, inputs, i, threshold);
    assert(run(PhaseView::Idle, inputs, threshold).1[i] == transition(q, inputs[i], threshold).1);
}

} // verus!
