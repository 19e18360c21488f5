//! Joints that treat each of the six degrees of freedom on its own.
use vstd::prelude::*;
use crate::math::Vector;
use crate::scalar::Real;

verus! {

/// A degree of freedom.
#[derive(Clone, Copy, Debug, PartialEq, Eq, Structural)]
pub enum JointAxis {
    /// Shift along the first axis.
    LinX,
    /// Shift along the second axis.
    LinY,
    /// Shift along the third axis.
    LinZ,
    /// Turn about the first axis.
    AngX,
    /// Turn about the second axis.
    AngY,
    /// Turn about the third axis.
    AngZ,
}

/// What the coefficients of a motor give.
#[derive(Clone, Copy, Debug, PartialEq, Eq, Structural)]
pub enum MotorModel {
    /// An acceleration, whatever the masses are.
    AccelerationBased,
    /// A force.
    ForceBased,
}

/// How far a degree of freedom goes.
#[derive(Clone, Copy, Debug, PartialEq)]
pub struct JointLimits<R> {
    /// The lower end.
    pub min: R,
    /// The upper end.
    pub max: R,
}

/// What drives a degree of freedom.
#[derive(Clone, Copy, Debug, PartialEq)]
pub struct JointMotor<R> {
    /// The position to reach.
    pub target_pos: R,
    /// The velocity to reach.
    pub target_vel: R,
    /// Effort per unit of distance from the position.
    pub stiffness: R,
    /// Effort per unit of distance from the velocity.
    pub damping: R,
    /// What the effort is.
    pub model: MotorModel,
}

impl<R: Real> JointMotor<R> {
    pub open spec fn spec_idle() -> JointMotor<R> {
        JointMotor {
            target_pos: R::zero(),
            target_vel: R::zero(),
            stiffness: R::zero(),
            damping: R::zero(),
            model: MotorModel::AccelerationBased,
        }
    }

    /// A motor that makes no effort.
    #[verifier::when_used_as_spec(spec_idle)]
    pub fn idle() -> (m: JointMotor<R>)
        ensures
            m == Self::spec_idle(),
    {
        JointMotor {
            target_pos: R::zero(),
            target_vel: R::zero(),
            stiffness: R::zero(),
            damping: R::zero(),
            model: MotorModel::AccelerationBased,
        }
    }
}

/// How a joint treats one degree of freedom.
#[derive(Clone, Copy, Debug, PartialEq)]
pub struct AxisState<R> {
    /// Whether there is no motion at all.
    pub locked: bool,
    /// Whether limit and motor act on it together with the other coupled ones.
    pub coupled: bool,
    /// How far it goes, if there is a limit.
    pub limits: Option<JointLimits<R>>,
    /// Whether the motor runs.
    pub motorized: bool,
    /// What drives it while the motor runs.
    pub motor: JointMotor<R>,
}

impl<R: Real> AxisState<R> {
    pub open spec fn spec_free() -> AxisState<R> {
        AxisState {
            locked: false,
            coupled: false,
            limits: None,
            motorized: false,
            motor: JointMotor::idle(),
        }
    }

    /// Free motion.
    #[verifier::when_used_as_spec(spec_free)]
    pub fn free() -> (a: AxisState<R>)
        ensures
            a == Self::spec_free(),
    {
        AxisState {
            locked: false,
            coupled: false,
            limits: None,
            motorized: false,
            motor: JointMotor::idle(),
        }
    }

    /// The same with the motor running.
    pub open spec fn driven(
        self,
        target_pos: R,
        target_vel: R,
        stiffness: R,
        damping: R,
    ) -> AxisState<R> {
        AxisState {
            motorized: true,
            motor: JointMotor {
                target_pos,
                target_vel,
                stiffness,
                damping,
                model: self.motor.model,
            },
            ..self
        }
    }

    /// The same with another motor model.
    pub open spec fn modelled(self, model: MotorModel) -> AxisState<R> {
        AxisState { motor: JointMotor { model, ..self.motor }, ..self }
    }
}

/// A joint between two bodies.
#[derive(Clone, Copy, Debug, PartialEq)]
pub struct GenericJoint<R> {
    /// Anchor in the local frame of the first body.
    pub local_anchor1: Vector<R>,
    /// Anchor in the local frame of the second body.
    pub local_anchor2: Vector<R>,
    /// Whether the two bodies touch each other.
    pub contacts_enabled: bool,
    /// Shift along the first axis.
    pub lin_x: AxisState<R>,
    /// Shift along the second axis.
    pub lin_y: AxisState<R>,
    /// Shift along the third axis.
    pub lin_z: AxisState<R>,
    /// Turn about the first axis.
    pub ang_x: AxisState<R>,
    /// Turn about the second axis.
    pub ang_y: AxisState<R>,
    /// Turn about the third axis.
    pub ang_z: AxisState<R>,
}

impl<R: Real> GenericJoint<R> {
    pub open spec fn spec_new() -> GenericJoint<R> {
        GenericJoint {
            local_anchor1: Vector::zero(),
            local_anchor2: Vector::zero(),
            contacts_enabled: true,
            lin_x: AxisState::free(),
            lin_y: AxisState::free(),
            lin_z: AxisState::free(),
            ang_x: AxisState::free(),
            ang_y: AxisState::free(),
            ang_z: AxisState::free(),
        }
    }

    /// A joint that leaves every motion free.
    #[verifier::when_used_as_spec(spec_new)]
    pub fn new() -> (j: GenericJoint<R>)
        ensures
            j == Self::spec_new(),
    {
        GenericJoint {
            local_anchor1: Vector::zero(),
            local_anchor2: Vector::zero(),
            contacts_enabled: true,
            lin_x: AxisState::free(),
            lin_y: AxisState::free(),
            lin_z: AxisState::free(),
            ang_x: AxisState::free(),
            ang_y: AxisState::free(),
            ang_z: AxisState::free(),
        }
    }

    pub open spec fn spec_axis(&self, axis: JointAxis) -> AxisState<R> {
        match axis {
            JointAxis::LinX => self.lin_x,
            JointAxis::LinY => self.lin_y,
            JointAxis::LinZ => self.lin_z,
            JointAxis::AngX => self.ang_x,
            JointAxis::AngY => self.ang_y,
            JointAxis::AngZ => self.ang_z,
        }
    }

    /// How the joint treats a degree of freedom.
    #[verifier::when_used_as_spec(spec_axis)]
    pub fn axis(&self, axis: JointAxis) -> (a: AxisState<R>)
        ensures
            a == self.spec_axis(axis),
    {
        match axis {
            JointAxis::LinX => self.lin_x,
            JointAxis::LinY => self.lin_y,
            JointAxis::LinZ => self.lin_z,
            JointAxis::AngX => self.ang_x,
            JointAxis::AngY => self.ang_y,
            JointAxis::AngZ => self.ang_z,
        }
    }

    pub open spec fn spec_with_axis(self, axis: JointAxis, a: AxisState<R>) -> GenericJoint<R> {
        match axis {
            JointAxis::LinX => GenericJoint { lin_x: a, ..self },
            JointAxis::LinY => GenericJoint { lin_y: a, ..self },
            JointAxis::LinZ => GenericJoint { lin_z: a, ..self },
            JointAxis::AngX => GenericJoint { ang_x: a, ..self },
            JointAxis::AngY => GenericJoint { ang_y: a, ..self },
            JointAxis::AngZ => GenericJoint { ang_z: a, ..self },
        }
    }

    /// The joint with another treatment of a degree of freedom.
    #[verifier::when_used_as_spec(spec_with_axis)]
    pub fn with_axis(self, axis: JointAxis, a: AxisState<R>) -> (j: GenericJoint<R>)
        ensures
            j == self.spec_with_axis(axis, a),
    {
        let mut j = self;
        match axis {
            JointAxis::LinX => {
                j.lin_x = a;
            },
            JointAxis::LinY => {
                j.lin_y = a;
            },
            JointAxis::LinZ => {
                j.lin_z = a;
            },
            JointAxis::AngX => {
                j.ang_x = a;
            },
            JointAxis::AngY => {
                j.ang_y = a;
            },
            JointAxis::AngZ => {
                j.ang_z = a;
            },
        }
        j
    }

    /// Locks a degree of freedom.
    pub fn lock(&mut self, axis: JointAxis)
        ensures
            *final(self) == old(self).with_axis(
                axis,
                (AxisState { locked: true, ..old(self).axis(axis) }),
            ),
    {
        let mut a = self.axis(axis);
        a.locked = true;
        *self = self.with_axis(axis, a);
    }

    /// Couples a degree of freedom with the other coupled ones.
    pub fn couple(&mut self, axis: JointAxis)
        ensures
            *final(self) == old(self).with_axis(
                axis,
                (AxisState { coupled: true, ..old(self).axis(axis) }),
            ),
    {
        let mut a = self.axis(axis);
        a.coupled = true;
        *self = self.with_axis(axis, a);
    }

    /// Limits a degree of freedom.
    pub fn set_limits(&mut self, axis: JointAxis, min: R, max: R)
        ensures
            *final(self) == old(self).with_axis(
                axis,
                (AxisState { limits: Some(JointLimits { min, max }), ..old(self).axis(axis) }),
            ),
    {
        let mut a = self.axis(axis);
        a.limits = Some(JointLimits { min, max });
        *self = self.with_axis(axis, a);
    }

    /// Drives a degree of freedom to a position.
    pub fn set_motor_position(&mut self, axis: JointAxis, target_pos: R, stiffness: R, damping: R)
        ensures
            *final(self) == old(self).with_axis(
                axis,
                old(self).axis(axis).driven(target_pos, R::zero(), stiffness, damping),
            ),
    {
        let mut a = self.axis(axis);
        a.motorized = true;
        a.motor.target_pos = target_pos;
        a.motor.target_vel = R::zero();
        a.motor.stiffness = stiffness;
        a.motor.damping = damping;
        *self = self.with_axis(axis, a);
    }

    /// Drives a degree of freedom to a velocity.
    pub fn set_motor_velocity(&mut self, axis: JointAxis, target_vel: R, factor: R)
        ensures
            *final(self) == old(self).with_axis(
                axis,
                old(self).axis(axis).driven(
                    old(self).axis(axis).motor.target_pos,
                    target_vel,
                    R::zero(),
                    factor,
                ),
            ),
    {
        let mut a = self.axis(axis);
        a.motorized = true;
        a.motor.target_vel = target_vel;
        a.motor.stiffness = R::zero();
        a.motor.damping = factor;
        *self = self.with_axis(axis, a);
    }

    /// Sets what the coefficients of a motor give.
    pub fn set_motor_model(&mut self, axis: JointAxis, model: MotorModel)
        ensures
            *final(self) == old(self).with_axis(axis, old(self).axis(axis).modelled(model)),
    {
        let mut a = self.axis(axis);
        a.motor.model = model;
        *self = self.with_axis(axis, a);
    }
}

} // verus!
