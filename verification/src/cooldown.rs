use vstd::prelude::*;

verus! {

/// The number of ability slots a player has.
pub const SLOTS: usize = 4;

/// The value of one remaining-ticks counter after one tick:
/// a running cooldown goes down by one, a finished one stays at zero.
pub open spec fn tick(c: u32) -> u32 {
    if c > 0 { (c - 1) as u32 } else { 0 }
}

/// Every counter of `cds` after one tick.
pub open spec fn tick_all(cds: Seq<u32>) -> Seq<u32> {
    Seq::new(cds.len(), |i: int| tick(cds[i]))
}

/// A counter after `k` ticks.
pub open spec fn ticks(c: u32, k: nat) -> u32
    decreases k,
{
    if k == 0 { c } else { tick(ticks(c, (k - 1) as nat)) }
}

/// Every counter of `cds` after `k` ticks.
pub open spec fn tick_all_n(cds: Seq<u32>, k: nat) -> Seq<u32>
    decreases k,
{
    if k == 0 { cds } else { tick_all(tick_all_n(cds, (k - 1) as nat)) }
}

/// The remaining ticks of every ability slot of a player.
#[derive(Clone, Copy)]
pub struct CoolDowns(pub [u32; 4]);

impl CoolDowns {
    /// Cooldowns with every slot ready.
    pub fn new() -> (res: CoolDowns)
        ensures
            res.0@ == seq![0u32, 0u32, 0u32, 0u32],
    {
        let res = CoolDowns([0, 0, 0, 0]);
        assert(res.0@ =~= seq![0u32, 0u32, 0u32, 0u32]);
        res
    }
}

/// A player, which holds the cooldowns of its abilities.
#[derive(Clone, Copy)]
pub struct Player(pub CoolDowns);

impl Player {
    /// Advances every cooldown by one tick.
    pub fn decrease_cds(&mut self)
        ensures
            final(self).0.0@ == tick_all(old(self).0.0@),
    {
        let snapshot = self.0.0;
        let mut i: usize = 0;
        while i < SLOTS
            invariant
                i <= SLOTS,
                snapshot@ == old(self).0.0@,
                forall|j: int| 0 <= j < i ==> #[trigger] self.0.0@[j] == tick(snapshot@[j]),
                forall|j: int| i <= j < SLOTS ==> #[trigger] self.0.0@[j] == snapshot@[j],
            decreases SLOTS - i,
        {
            let cd = snapshot[i];
            if cd > 0 {
                self.0.0[i] = cd - 1;
            }
            i += 1;
        }
        assert(self.0.0@ =~= tick_all(old(self).0.0@));
    }
}

/// After `k` ticks a counter that started at `c` has gone down by `k`, and stops at zero.
pub proof fn lemma_ticks(c: u32, k: nat)
    ensures
        ticks(c, k) == if c >= k { (c - k) as u32 } else { 0u32 },
    decreases k,
{
    if k > 0 {
        lemma_ticks(c, (k - 1) as nat);
    }
}

/// Ticking all slots `k` times ticks each slot `k` times, independently of the others.
pub proof fn lemma_tick_all_n(cds: Seq<u32>, k: nat)
    ensures
        tick_all_n(cds, k).len() == cds.len(),
        forall|i: int| 0 <= i < cds.len() ==> #[trigger] tick_all_n(cds, k)[i] == ticks(cds[i], k),
    decreases k,
{
    if k > 0 {
        lemma_tick_all_n(cds, (k - 1) as nat);
    }
}

/// A slot whose cooldown is `c` is ready (zero) after `k` ticks exactly when `k >= c`.
pub proof fn lemma_ready_after(cds: Seq<u32>, i: int, k: nat)
    requires
        0 <= i < cds.len(),
    ensures
        (tick_all_n(cds, k)[i] == 0) <==> (k >= cds[i]),
{
    lemma_tick_all_n(cds, k);
    lemma_ticks(cds[i], k);
}

} // verus!
