//! Wheels on a suspension.
use vstd::prelude::*;
use crate::dynamics::joint::generic_joint::{
    AxisState, GenericJoint, JointAxis, JointLimits, JointMotor, MotorModel,
};
use crate::math::Vector;
use crate::scalar::Real;

verus! {

/// A wheel on a chassis.
///
/// The shift along the second axis is a damped spring, the suspension. The turn about the second
/// axis steers, the turn about the first axis spins the wheel. All other motion is locked.
#[derive(Clone, Copy, Debug, PartialEq)]
pub struct WheelJoint<R> {
    /// The joint.
    pub data: GenericJoint<R>,
}

/// The joint of a new wheel.
pub open spec fn wheel_data<R: Real>(rest_length: R, stiffness: R, damping: R) -> GenericJoint<R> {
    let locked = AxisState { locked: true, ..AxisState::<R>::spec_free() };
    GenericJoint {
        lin_x: locked,
        lin_z: locked,
        ang_z: locked,
        lin_y: AxisState {
            coupled: true,
            limits: Some(JointLimits { min: R::zero(), max: rest_length }),
            ..AxisState::<R>::spec_free()
        }.driven(rest_length, R::zero(), stiffness, damping).modelled(MotorModel::ForceBased),
        ..GenericJoint::<R>::spec_new()
    }
}

/// A joint with the motor of a degree of freedom set to a position.
pub open spec fn positioned<R: Real>(
    j: GenericJoint<R>,
    axis: JointAxis,
    target: R,
    stiffness: R,
    damping: R,
    model: MotorModel,
) -> GenericJoint<R> {
    j.with_axis(
        axis,
        j.axis(axis).driven(target, R::zero(), stiffness, damping).modelled(model),
    )
}

impl<R: Real> WheelJoint<R> {
    /// The suspension has a limit and a motor.
    pub open spec fn wf(&self) -> bool {
        self.data.lin_y.limits is Some && self.data.lin_y.motorized
    }

    /// A wheel with the given rest length, stiffness and damping of its suspension. Steering and
    /// spin are free.
    pub fn new(rest_length: R, stiffness: R, damping: R) -> (w: WheelJoint<R>)
        ensures
            w.wf(),
            w.data == wheel_data(rest_length, stiffness, damping),
    {
        let mut data = GenericJoint::new();
        data.lock(JointAxis::LinX);
        data.lock(JointAxis::LinZ);
        data.lock(JointAxis::AngZ);
        data.couple(JointAxis::LinY);
        data.set_limits(JointAxis::LinY, R::zero(), rest_length);
        data.set_motor_position(JointAxis::LinY, rest_length, stiffness, damping);
        data.set_motor_model(JointAxis::LinY, MotorModel::ForceBased);
        WheelJoint { data }
    }

    /// The joint.
    pub fn data(&self) -> (j: &GenericJoint<R>)
        ensures
            *j == self.data,
    {
        &self.data
    }

    /// Whether the two bodies touch each other.
    pub fn contacts_enabled(&self) -> (b: bool)
        ensures
            b == self.data.contacts_enabled,
    {
        self.data.contacts_enabled
    }

    /// Sets whether the two bodies touch each other.
    pub fn set_contacts_enabled(&mut self, enabled: bool) -> (r: &mut WheelJoint<R>)
        ensures
            r.data == (GenericJoint { contacts_enabled: enabled, ..old(self).data }),
            *final(self) == *final(r),
    {
        self.data.contacts_enabled = enabled;
        self
    }

    /// The anchor in the local frame of the first body.
    #[must_use]
    pub fn local_anchor1(&self) -> (p: Vector<R>)
        ensures
            p == self.data.local_anchor1,
    {
        self.data.local_anchor1
    }

    /// Sets the anchor in the local frame of the first body.
    pub fn set_local_anchor1(&mut self, anchor1: Vector<R>) -> (r: &mut WheelJoint<R>)
        ensures
            r.data == (GenericJoint { local_anchor1: anchor1, ..old(self).data }),
            *final(self) == *final(r),
    {
        self.data.local_anchor1 = anchor1;
        self
    }

    /// The anchor in the local frame of the second body.
    #[must_use]
    pub fn local_anchor2(&self) -> (p: Vector<R>)
        ensures
            p == self.data.local_anchor2,
    {
        self.data.local_anchor2
    }

    /// Sets the anchor in the local frame of the second body.
    pub fn set_local_anchor2(&mut self, anchor2: Vector<R>) -> (r: &mut WheelJoint<R>)
        ensures
            r.data == (GenericJoint { local_anchor2: anchor2, ..old(self).data }),
            *final(self) == *final(r),
    {
        self.data.local_anchor2 = anchor2;
        self
    }

    /// The rest length of the suspension.
    #[must_use]
    pub fn suspension_rest_length(&self) -> (l: R)
        requires
            self.data.lin_y.limits is Some,
        ensures
            l == (self.data.lin_y.limits->0).max,
    {
        match self.data.lin_y.limits {
            Some(l) => l.max,
            None => R::zero(),
        }
    }

    /// Sets the rest length of the suspension: how far it goes, and where its spring comes to
    /// rest. Stiffness and damping stay.
    pub fn set_suspension_rest_length(&mut self, rest_length: R) -> (r: &mut WheelJoint<R>)
        ensures
            r.data == old(self).data.with_axis(
                JointAxis::LinY,
                (AxisState {
                    limits: Some(JointLimits { min: R::zero(), max: rest_length }),
                    motor: JointMotor { target_pos: rest_length, ..old(self).data.lin_y.motor },
                    ..old(self).data.lin_y
                }),
            ),
            old(self).wf() ==> r.wf(),
            *final(self) == *final(r),
    {
        self.data.set_limits(JointAxis::LinY, R::zero(), rest_length);
        self.data.lin_y.motor.target_pos = rest_length;
        self
    }

    /// Sets the stiffness and damping of the suspension, with its rest length.
    pub fn set_suspension(&mut self, stiffness: R, damping: R) -> (r: &mut WheelJoint<R>)
        requires
            old(self).data.lin_y.limits is Some,
        ensures
            r.data == positioned(
                old(self).data,
                JointAxis::LinY,
                (old(self).data.lin_y.limits->0).max,
                stiffness,
                damping,
                MotorModel::ForceBased,
            ),
            r.wf(),
            *final(self) == *final(r),
    {
        let rest_length = self.suspension_rest_length();
        self.data.set_motor_position(JointAxis::LinY, rest_length, stiffness, damping);
        self.data.set_motor_model(JointAxis::LinY, MotorModel::ForceBased);
        self
    }

    /// The stiffness and damping of the suspension.
    #[must_use]
    pub fn suspension(&self) -> (r: (R, R))
        requires
            self.data.lin_y.motorized,
        ensures
            r == (self.data.lin_y.motor.stiffness, self.data.lin_y.motor.damping),
    {
        (self.data.lin_y.motor.stiffness, self.data.lin_y.motor.damping)
    }

    /// Steers the wheel to an angle.
    pub fn set_steering(&mut self, target: R, stiffness: R, damping: R) -> (r: &mut WheelJoint<R>)
        ensures
            r.data == positioned(
                old(self).data,
                JointAxis::AngY,
                target,
                stiffness,
                damping,
                MotorModel::AccelerationBased,
            ),
            old(self).wf() ==> r.wf(),
            *final(self) == *final(r),
    {
        self.data.set_motor_position(JointAxis::AngY, target, stiffness, damping);
        self.data.set_motor_model(JointAxis::AngY, MotorModel::AccelerationBased);
        self
    }

    /// Spins the wheel with a velocity.
    pub fn set_axle_velocity(&mut self, target_vel: R, damping: R) -> (r: &mut WheelJoint<R>)
        ensures
            r.data == old(self).data.with_axis(
                JointAxis::AngX,
                old(self).data.ang_x.driven(
                    old(self).data.ang_x.motor.target_pos,
                    target_vel,
                    R::zero(),
                    damping,
                ).modelled(MotorModel::AccelerationBased),
            ),
            old(self).wf() ==> r.wf(),
            *final(self) == *final(r),
    {
        self.data.set_motor_velocity(JointAxis::AngX, target_vel, damping);
        self.data.set_motor_model(JointAxis::AngX, MotorModel::AccelerationBased);
        self
    }

    /// Turns the wheel to an angle.
    pub fn set_axle_target(&mut self, target: R, stiffness: R, damping: R) -> (r: &mut WheelJoint<
        R,
    >)
        ensures
            r.data == positioned(
                old(self).data,
                JointAxis::AngX,
                target,
                stiffness,
                damping,
                MotorModel::AccelerationBased,
            ),
            old(self).wf() ==> r.wf(),
            *final(self) == *final(r),
    {
        self.data.set_motor_position(JointAxis::AngX, target, stiffness, damping);
        self.data.set_motor_model(JointAxis::AngX, MotorModel::AccelerationBased);
        self
    }
}

impl<R: Real> From<WheelJoint<R>> for GenericJoint<R> {
    fn from(val: WheelJoint<R>) -> (j: GenericJoint<R>) {
        val.data
    }
}

impl<R: Real> vstd::std_specs::convert::FromSpecImpl<WheelJoint<R>> for GenericJoint<R> {
    open spec fn obeys_from_spec() -> bool {
        true
    }

    open spec fn from_spec(val: WheelJoint<R>) -> GenericJoint<R> {
        val.data
    }
}

/// A [`WheelJoint`] in the making.
#[derive(Clone, Copy, Debug, PartialEq)]
pub struct WheelJointBuilder<R>(pub WheelJoint<R>);

impl<R: Real> WheelJointBuilder<R> {
    /// A wheel with the given rest length, stiffness and damping of its suspension.
    pub fn new(rest_length: R, stiffness: R, damping: R) -> (b: WheelJointBuilder<R>)
        ensures
            b.0.wf(),
            b.0.data == wheel_data(rest_length, stiffness, damping),
    {
        WheelJointBuilder(WheelJoint::new(rest_length, stiffness, damping))
    }

    /// Sets whether the two bodies touch each other.
    #[must_use]
    pub fn contacts_enabled(self, enabled: bool) -> (b: WheelJointBuilder<R>)
        ensures
            b.0.data == (GenericJoint { contacts_enabled: enabled, ..self.0.data }),
    {
        let mut joint = self.0;
        joint.set_contacts_enabled(enabled);
        WheelJointBuilder(joint)
    }

    /// Sets the anchor in the local frame of the first body.
    #[must_use]
    pub fn local_anchor1(self, anchor1: Vector<R>) -> (b: WheelJointBuilder<R>)
        ensures
            b.0.data == (GenericJoint { local_anchor1: anchor1, ..self.0.data }),
    {
        let mut joint = self.0;
        joint.set_local_anchor1(anchor1);
        WheelJointBuilder(joint)
    }

    /// Sets the anchor in the local frame of the second body.
    #[must_use]
    pub fn local_anchor2(self, anchor2: Vector<R>) -> (b: WheelJointBuilder<R>)
        ensures
            b.0.data == (GenericJoint { local_anchor2: anchor2, ..self.0.data }),
    {
        let mut joint = self.0;
        joint.set_local_anchor2(anchor2);
        WheelJointBuilder(joint)
    }

    /// The wheel.
    pub fn build(self) -> (w: WheelJoint<R>)
        ensures
            w == self.0,
    {
        self.0
    }
}

/// What the suspension was set to is what it reports: a new wheel has the rest length, stiffness
/// and damping that it was made with, and a wheel that is set to others has those.
pub proof fn lemma_suspension_reports_what_was_set<R: Real>(
    rest_length: R,
    stiffness: R,
    damping: R,
    j: GenericJoint<R>,
)
    ensures
        ({
            let made = wheel_data(rest_length, stiffness, damping);
            &&& made.lin_y.limits == Some(JointLimits { min: R::zero(), max: rest_length })
            &&& made.lin_y.motor.stiffness == stiffness
            &&& made.lin_y.motor.damping == damping
            &&& made.lin_y.motor.target_pos == rest_length
        }),
        ({
            let set = positioned(
                j,
                JointAxis::LinY,
                rest_length,
                stiffness,
                damping,
                MotorModel::ForceBased,
            );
            &&& set.lin_y.limits == j.lin_y.limits
            &&& set.lin_y.motor.stiffness == stiffness
            &&& set.lin_y.motor.damping == damping
        }),
{
}

/// Steering and spinning a wheel leave its suspension and the locked motion alone.
pub proof fn lemma_driving_keeps_suspension<R: Real>(
    j: GenericJoint<R>,
    axis: JointAxis,
    target: R,
    stiffness: R,
    damping: R,
)
    requires
        axis == JointAxis::AngX || axis == JointAxis::AngY,
    ensures
        ({
            let k = positioned(
                j,
                axis,
                target,
                stiffness,
                damping,
                MotorModel::AccelerationBased,
            );
            &&& k.lin_x == j.lin_x && k.lin_y == j.lin_y && k.lin_z == j.lin_z
            &&& k.ang_z == j.ang_z
        }),
{
}

/// A degree of freedom is read back as it was set, and the rest of the joint is kept.
pub proof fn lemma_axis_is_read_back<R: Real>(
    j: GenericJoint<R>,
    axis: JointAxis,
    other: JointAxis,
    a: AxisState<R>,
)
    requires
        other != axis,
    ensures
        j.with_axis(axis, a).axis(axis) == a,
        j.with_axis(axis, a).axis(other) == j.axis(other),
        j.with_axis(axis, a).local_anchor1 == j.local_anchor1,
        j.with_axis(axis, a).local_anchor2 == j.local_anchor2,
        j.with_axis(axis, a).contacts_enabled == j.contacts_enabled,
{
    match axis {
        JointAxis::LinX => {},
        JointAxis::LinY => {},
        JointAxis::LinZ => {},
        JointAxis::AngX => {},
        JointAxis::AngY => {},
        JointAxis::AngZ => {},
    }
}

/// A motor does what it was set to, and the other degrees of freedom keep what they were set to.
pub proof fn lemma_motor_does_what_was_set<R: Real>(
    j: GenericJoint<R>,
    axis: JointAxis,
    other: JointAxis,
    target: R,
    stiffness: R,
    damping: R,
    model: MotorModel,
)
    requires
        other != axis,
    ensures
        ({
            let k = positioned(j, axis, target, stiffness, damping, model);
            let motor = k.axis(axis).motor;
            &&& k.axis(axis).motorized
            &&& motor.target_pos == target && motor.target_vel == R::spec_zero()
            &&& motor.stiffness == stiffness && motor.damping == damping && motor.model == model
            &&& k.axis(axis).locked == j.axis(axis).locked && k.axis(axis).limits == j.axis(
                axis,
            ).limits && k.axis(axis).coupled == j.axis(axis).coupled
            &&& k.axis(other) == j.axis(other)
            &&& k.local_anchor1 == j.local_anchor1 && k.local_anchor2 == j.local_anchor2
                && k.contacts_enabled == j.contacts_enabled
        }),
{
    let a = j.axis(axis).driven(target, R::spec_zero(), stiffness, damping).modelled(model);
    lemma_axis_is_read_back(j, axis, other, a);
}

/// A new wheel moves up and down within its rest length, steers and spins, and does nothing else.
pub proof fn lemma_new_wheel_goes_up_and_down_and_turns<R: Real>(
    rest_length: R,
    stiffness: R,
    damping: R,
)
    ensures
        ({
            let made = wheel_data(rest_length, stiffness, damping);
            &&& made.axis(JointAxis::LinX).locked && made.axis(JointAxis::LinZ).locked && made.axis(
                JointAxis::AngZ,
            ).locked
            &&& !made.axis(JointAxis::LinY).locked && made.axis(JointAxis::LinY).coupled
            &&& made.axis(JointAxis::LinY).motor.model == MotorModel::ForceBased
            &&& made.axis(JointAxis::LinY).motor.target_vel == R::spec_zero()
            &&& made.axis(JointAxis::AngX) == AxisState::<R>::spec_free()
            &&& made.axis(JointAxis::AngY) == AxisState::<R>::spec_free()
        }),
{
}

} // verus!
