use vstd::prelude::*;
use vstd::arithmetic::div_mod::{
    lemma_div_by_multiple, lemma_div_by_self, lemma_div_is_ordered,
    lemma_div_multiples_vanish_fancy, lemma_div_plus_one, lemma_div_pos_is_pos,
    lemma_fundamental_div_mod, lemma_mod_bound,
};

verus! {

/// A combatant. Health drops as damage comes in; attack and defense are fixed
/// at construction. The two preset kinds, soldier and tank, carry whole-number
/// stats, so all combat arithmetic is exact integer arithmetic.
#[derive(Clone, Copy, PartialEq, Eq, Structural, Debug)]
pub struct Unit {
    pub health: u16,
    pub attack: u16,
    pub defense: u16,
}

/// Health after absorbing `damage`: subtraction floored at zero, never an underflow.
pub open spec fn saturated_sub(health: u16, damage: int) -> u16 {
    if damage >= health {
        0u16
    } else {
        (health - damage) as u16
    }
}

/// Ten times a unit's effective attack. The effective attack itself is
/// `attack * health / 10`: attack power scales linearly with current health
/// relative to a baseline of 10. Keeping the tenfold value makes it a plain
/// integer.
pub open spec fn effective_attack_x10(u: Unit) -> int {
    u.attack * u.health
}

/// The damage one forward blow deals: the attacker's effective attack divided
/// by the defender's defense, truncated toward zero. Dividing the tenfold
/// effective attack by the defense and then by ten yields exactly that
/// truncation, since nested floors of positive divisors collapse.
pub open spec fn forward_damage(attacker: Unit, defender: Unit) -> int {
    effective_attack_x10(attacker) / (defender.defense as int) / 10
}

/// The defender as it stands after absorbing the forward blow.
pub open spec fn defender_after_attack(attacker: Unit, defender: Unit) -> Unit {
    Unit { health: saturated_sub(defender.health, forward_damage(attacker, defender)), ..defender }
}

/// The counter-blow: the defender's effective attack at its health as it
/// already stands after the forward blow, divided by the attacker's defense,
/// halved, and truncated toward zero once at the end: dividing the tenfold
/// effective attack by the defense and then by twenty is exactly that.
pub open spec fn counter_damage(attacker: Unit, defender_after: Unit) -> int {
    effective_attack_x10(defender_after) / (attacker.defense as int) / 20
}

/// The attacker as it stands after the counter-blow of one exchange.
pub open spec fn attacker_after_attack(attacker: Unit, defender: Unit) -> Unit {
    Unit {
        health: saturated_sub(
            attacker.health,
            counter_damage(attacker, defender_after_attack(attacker, defender)),
        ),
        ..attacker
    }
}

impl Unit {
    /// Stats invariant: defense is positive, so damage divisions are well defined.
    pub open spec fn wf(self) -> bool {
        self.defense >= 1
    }

    pub fn soldier() -> (u: Unit)
        ensures
            u == (Unit { health: 10u16, attack: 2u16, defense: 1u16 }),
    {
        Unit { health: 10, attack: 2, defense: 1 }
    }

    pub fn tank() -> (u: Unit)
        ensures
            u == (Unit { health: 10u16, attack: 4u16, defense: 2u16 }),
    {
        Unit { health: 10, attack: 4, defense: 2 }
    }

    fn is_alive(&self) -> (alive: bool)
        ensures
            alive == (self.health > 0),
    {
        self.health > 0
    }

    pub fn get_health(&self) -> (health: u16)
        ensures
            health == self.health,
    {
        self.health
    }

    /// Subtracts `damage` from health, floored at zero, and reports whether the
    /// unit is still alive afterwards.
    pub fn take_damage(&mut self, damage: u16) -> (alive: bool)
        ensures
            final(self).health == saturated_sub(old(self).health, damage as int),
            final(self).attack == old(self).attack,
            final(self).defense == old(self).defense,
            alive == (final(self).health > 0),
    {
        self.health = if self.health >= damage {
            self.health - damage
        } else {
            0
        };
        self.is_alive()
    }

    /// Resolves one bidirectional exchange: the defender absorbs the forward
    /// blow first, then strikes back at its reduced strength for half damage.
    /// Returns `(attacker_alive, defender_alive)`.
    pub fn attack(&mut self, other: &mut Unit) -> (r: (bool, bool))
        requires
            old(self).wf(),
            old(other).wf(),
        ensures
            *final(other) == defender_after_attack(*old(self), *old(other)),
            *final(self) == attacker_after_attack(*old(self), *old(other)),
            r == ((final(self).health > 0, final(other).health > 0)),
            final(self).wf(),
            final(other).wf(),
    {
        proof {
            assert(self.attack * self.health <= 0xFFFF * 0xFFFF) by (nonlinear_arith)
                requires
                    self.attack <= 0xFFFF,
                    self.health <= 0xFFFF,
            ;
        }
        let other_damage: u32 = (self.attack as u32 * self.health as u32) / (
        other.defense as u32) / 10;
        let other_damage_capped: u16 = if other_damage > u16::MAX as u32 {
            u16::MAX
        } else {
            other_damage as u16
        };
        proof {
            assert(other_damage == forward_damage(*self, *other));
            assert(saturated_sub(other.health, other_damage_capped as int) == saturated_sub(
                other.health,
                forward_damage(*self, *other),
            ));
        }
        other.take_damage(other_damage_capped);
        proof {
            assert(other.attack * other.health <= 0xFFFF * 0xFFFF) by (nonlinear_arith)
                requires
                    other.attack <= 0xFFFF,
                    other.health <= 0xFFFF,
            ;
        }
        let self_damage: u32 = (other.attack as u32 * other.health as u32) / (
        self.defense as u32) / 20;
        let self_damage_capped: u16 = if self_damage > u16::MAX as u32 {
            u16::MAX
        } else {
            self_damage as u16
        };
        proof {
            assert(*other == defender_after_attack(*old(self), *old(other)));
            assert(self_damage == counter_damage(*old(self), *other));
            assert(saturated_sub(self.health, self_damage_capped as int) == saturated_sub(
                self.health,
                counter_damage(*old(self), *other),
            ));
        }
        self.take_damage(self_damage_capped);
        (self.is_alive(), other.is_alive())
    }
}

/// Zero damage leaves health unchanged, so the alive state `take_damage(0)`
/// reports is the state the unit was already in.
pub proof fn lemma_zero_damage_is_harmless(u: Unit)
    ensures
        saturated_sub(u.health, 0) == u.health,
        (saturated_sub(u.health, 0) > 0) <==> (u.health > 0),
{
}

/// Damage saturates at zero health: no blow drives health negative, and
/// repeated blows whose total would underflow leave health at exactly zero.
pub proof fn lemma_repeated_damage_saturates(health: u16, first: u16, second: u16)
    requires
        first + second >= health,
    ensures
        saturated_sub(health, first as int) >= 0,
        saturated_sub(saturated_sub(health, first as int), second as int) == 0,
{
}

/// In a duel of two fresh soldiers the attacker comes out strictly ahead: the
/// forward blow outweighs the halved counter-blow when defenses are equal.
pub proof fn lemma_fresh_soldier_duel_favors_attacker()
    ensures
        ({
            let s = Unit { health: 10u16, attack: 2u16, defense: 1u16 };
            attacker_after_attack(s, s).health > defender_after_attack(s, s).health
        }),
{
    let s = Unit { health: 10u16, attack: 2u16, defense: 1u16 };
    assert(effective_attack_x10(s) == 20);
    assert(forward_damage(s, s) == 2);
    let d1 = defender_after_attack(s, s);
    assert(d1.health == 8);
    assert(effective_attack_x10(d1) == 16);
    assert(counter_damage(s, d1) == 0);
    assert(attacker_after_attack(s, s).health == 10);
}

/// A tank's effective attack strictly exceeds a soldier's at any equal
/// positive health.
pub proof fn lemma_tank_outguns_soldier(health: u16)
    requires
        health >= 1,
    ensures
        ({
            let s = Unit { health, attack: 2u16, defense: 1u16 };
            let t = Unit { health, attack: 4u16, defense: 2u16 };
            effective_attack_x10(t) > effective_attack_x10(s)
        }),
{
}

/// Attacking with a tank deals strictly more damage than attacking with a
/// soldier of the same health to the same defender, whenever twice that
/// health reaches five times the defender's defense. (Below that bound both
/// blows can truncate to the same value, so strictness is lost.)
pub proof fn lemma_tank_damage_exceeds_soldier(health: u16, defender: Unit)
    requires
        defender.wf(),
        2 * health >= 5 * defender.defense,
    ensures
        ({
            let s = Unit { health, attack: 2u16, defense: 1u16 };
            let t = Unit { health, attack: 4u16, defense: 2u16 };
            forward_damage(t, defender) > forward_damage(s, defender)
        }),
{
    let s = Unit { health, attack: 2u16, defense: 1u16 };
    let t = Unit { health, attack: 4u16, defense: 2u16 };
    let m = defender.defense as int;
    let hh = health as int;
    let b = 2 * hh;
    assert(effective_attack_x10(s) == b) by (nonlinear_arith)
        requires
            s.attack == 2 && s.health == health && b == 2 * (health as int),
    ;
    assert(effective_attack_x10(t) == 2 * b) by (nonlinear_arith)
        requires
            t.attack == 4 && t.health == health && b == 2 * (health as int),
    ;
    let u = b / m;
    let v = (2 * b) / m;
    lemma_div_pos_is_pos(b, m);
    lemma_fundamental_div_mod(b, m);
    lemma_mod_bound(b, m);
    assert((2 * u) * m <= 2 * b) by (nonlinear_arith)
        requires
            b == m * (b / m) + b % m && b % m >= 0 && u == b / m,
    ;
    lemma_div_by_multiple(2 * u, m);
    lemma_div_is_ordered((2 * u) * m, 2 * b, m);
    assert(v >= 2 * u);
    assert(10 * m <= 2 * b);
    lemma_div_by_multiple(10, m);
    lemma_div_is_ordered(10 * m, 2 * b, m);
    assert(v >= 10);
    if u <= 9 {
        lemma_div_multiples_vanish_fancy(0, u, 10);
        assert(u / 10 == 0);
        lemma_div_by_self(10);
        lemma_div_is_ordered(10, v, 10);
        assert(v / 10 >= 1);
    } else {
        assert(v >= 10 + u);
        lemma_div_plus_one(u, 10);
        lemma_div_is_ordered(10 + u, v, 10);
        assert(v / 10 >= 1 + u / 10);
    }
    assert(forward_damage(t, defender) == v / 10);
    assert(forward_damage(s, defender) == u / 10);
}

/// A defender whose health the forward blow exhausts strikes no counter-blow
/// at all: its effective attack has dropped to zero, so the attacker leaves
/// the exchange untouched. In particular, no single exchange can destroy both
/// sides, since a live attacker stays alive whenever the defender dies.
pub proof fn lemma_dead_defender_strikes_no_counter(attacker: Unit, defender: Unit)
    requires
        attacker.wf(),
        defender.wf(),
    ensures
        defender_after_attack(attacker, defender).health == 0 ==> attacker_after_attack(
            attacker,
            defender,
        ) == attacker,
{
    let d1 = defender_after_attack(attacker, defender);
    if d1.health == 0 {
        assert(effective_attack_x10(d1) == 0) by {
            assert(d1.attack * d1.health == 0) by (nonlinear_arith)
                requires
                    d1.health == 0,
            ;
        };
        assert(counter_damage(attacker, d1) == 0);
        assert(attacker_after_attack(attacker, defender) == attacker);
    }
}

/// One exchange never destroys both sides: whenever the defender falls, an
/// attacker that entered the exchange alive leaves it alive as well.
pub proof fn lemma_no_mutual_destruction(attacker: Unit, defender: Unit)
    requires
        attacker.wf(),
        defender.wf(),
        attacker.health > 0,
    ensures
        !(attacker_after_attack(attacker, defender).health == 0 && defender_after_attack(
            attacker,
            defender,
        ).health == 0),
{
    lemma_dead_defender_strikes_no_counter(attacker, defender);
}

} // verus!
