//! The game's rules for collisions and shots, by object type.
use vstd::prelude::*;
use crate::ids::{ObjectId, ObjectType};
use crate::behavior::PlayerActionState;

verus! {

/// Whether the simulation resolves a collision between objects of types `a` and `b`
/// physically: never when a hook or a laser is involved.
pub open spec fn resolves(a: ObjectType, b: ObjectType) -> bool {
    !(a == ObjectType::Hook || b == ObjectType::Hook || a == ObjectType::Laser || b
        == ObjectType::Laser)
}

/// Returns `true` if the simulation should do physical collision resolution between
/// objects of types `a` and `b`.
pub fn should_resolve(a: ObjectType, b: ObjectType) -> (res: bool)
    ensures
        res == resolves(a, b),
{
    !(a == ObjectType::Hook || b == ObjectType::Hook || a == ObjectType::Laser || b
        == ObjectType::Laser)
}

/// What a collision sets off: the laser that hit (which then dies, with a laser-hit
/// emitter), whether a ship hit an asteroid (an asteroid-hit emitter), and the hook that
/// caught something (which then dies, after the hook is attached).
#[derive(Clone, Copy, Debug, PartialEq, Eq, Structural)]
pub struct HitEffects {
    pub laser: Option<ObjectId>,
    pub ship_asteroid: bool,
    pub hook: Option<ObjectId>,
}

/// The effects of a collision between `a` and `b`, each an object's type and id. When
/// both are lasers (or both hooks), the first one is the one that dies.
pub open spec fn hit_effects_of(a: (ObjectType, ObjectId), b: (ObjectType, ObjectId)) -> HitEffects {
    HitEffects {
        laser: if a.0 == ObjectType::Laser {
            Some(a.1)
        } else if b.0 == ObjectType::Laser {
            Some(b.1)
        } else {
            None
        },
        ship_asteroid: (a.0 == ObjectType::Ship && b.0 == ObjectType::Asteroid) || (a.0
            == ObjectType::Asteroid && b.0 == ObjectType::Ship),
        hook: if a.0 == ObjectType::Hook {
            Some(a.1)
        } else if b.0 == ObjectType::Hook {
            Some(b.1)
        } else {
            None
        },
    }
}

/// The effects of a collision between `a` and `b`, each an object's type and id.
pub fn on_hit(a: (ObjectType, ObjectId), b: (ObjectType, ObjectId)) -> (res: HitEffects)
    ensures
        res == hit_effects_of(a, b),
{
    let laser = if a.0 == ObjectType::Laser {
        Some(a.1)
    } else if b.0 == ObjectType::Laser {
        Some(b.1)
    } else {
        None
    };
    let hook = if a.0 == ObjectType::Hook {
        Some(a.1)
    } else if b.0 == ObjectType::Hook {
        Some(b.1)
    } else {
        None
    };
    HitEffects {
        laser,
        ship_asteroid: (a.0 == ObjectType::Ship && b.0 == ObjectType::Asteroid) || (a.0
            == ObjectType::Asteroid && b.0 == ObjectType::Ship),
        hook,
    }
}

/// How a collision with an object of some type damages a player's shield.
#[derive(Clone, Copy, Debug, PartialEq, Eq, Structural)]
pub enum ShieldDamage {
    /// A laser takes 10 off the shield.
    Laser,
    /// Anything else but a hook takes off a hundredth of the relative speed.
    Impact,
    /// A hook does no damage.
    NoDamage,
}

/// How a collision with an object of type `t` damages a player's shield.
pub fn shield_damage(t: ObjectType) -> (res: ShieldDamage)
    ensures
        res == (if t == ObjectType::Laser {
            ShieldDamage::Laser
        } else if t == ObjectType::Hook {
            ShieldDamage::NoDamage
        } else {
            ShieldDamage::Impact
        }),
{
    if t == ObjectType::Laser {
        ShieldDamage::Laser
    } else if t == ObjectType::Hook {
        ShieldDamage::NoDamage
    } else {
        ShieldDamage::Impact
    }
}

/// What a player shoots in a frame: nothing unless it is firing (a laser) or firing its
/// rope (a hook) and has energy for a shot.
pub fn shot_of(state: PlayerActionState, has_energy: bool) -> (res: Option<ObjectType>)
    ensures
        res == (if has_energy && state == PlayerActionState::Fire {
            Some(ObjectType::Laser)
        } else if has_energy && state == PlayerActionState::FireRope {
            Some(ObjectType::Hook)
        } else {
            None::<ObjectType>
        }),
{
    if !has_energy {
        None
    } else if state == PlayerActionState::Fire {
        Some(ObjectType::Laser)
    } else if state == PlayerActionState::FireRope {
        Some(ObjectType::Hook)
    } else {
        None
    }
}

/// Collision resolution does not depend on which object comes first.
pub proof fn lemma_resolves_symmetric(a: ObjectType, b: ObjectType)
    ensures
        resolves(a, b) == resolves(b, a),
{
}

/// A collision the simulation resolves physically kills neither a laser nor a hook.
pub proof fn lemma_resolved_hits_kill_nothing(a: (ObjectType, ObjectId), b: (ObjectType, ObjectId))
    requires
        resolves(a.0, b.0),
    ensures
        hit_effects_of(a, b).laser is None,
        hit_effects_of(a, b).hook is None,
{
}

} // verus!
