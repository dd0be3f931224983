//! Components of the visible particles.

use vstd::prelude::*;

verus! {

/// Marks an entity as a visible particle. The value is the particle's index.
#[derive(Debug, Clone, Copy, PartialEq, Eq, Structural)]
pub struct VisibleParticle(pub u32);

/// Level of detail of a particle: 0 = T0 (content entry), 1 = T1 (surface and label),
/// 2 = T2 (sphere), 3 = T3 (point), 4 = T-infinity (part of its cluster).
#[derive(Debug, Clone, Copy, PartialEq, Eq, Structural)]
pub struct TierLevel(pub u8);

/// The entities to spawn for what the cull pass found, in its order.
pub fn visible_entities(visible: &[(u32, crate::frame::cull::TierLevel)]) -> (entities: Vec<
    (VisibleParticle, TierLevel),
>)
    ensures
        entities.len() == visible.len(),
        forall|i: int|
            0 <= i < visible.len() ==> #[trigger] entities[i] == (
                VisibleParticle(visible[i].0),
                TierLevel(visible[i].1.number()),
            ),
{
    let mut entities: Vec<(VisibleParticle, TierLevel)> = Vec::new();
    let mut k: usize = 0;
    while k < visible.len()
        invariant
            k <= visible.len(),
            entities.len() == k,
            forall|i: int|
                0 <= i < k ==> #[trigger] entities[i] == (
                    VisibleParticle(visible[i].0),
                    TierLevel(visible[i].1.number()),
                ),
        decreases visible.len() - k,
    {
        let entry = visible[k];
        entities.push((VisibleParticle(entry.0), TierLevel(entry.1.code())));
        k = k + 1;
    }
    entities
}

} // verus!
