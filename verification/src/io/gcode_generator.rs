//! The motion state machine: spindle, plunge, retract and moves in a safe order.

use vstd::prelude::*;

verus! {

/// What the machine is doing.
#[derive(Clone, Copy, Debug, PartialEq, Eq, Structural)]
pub enum GCodeState {
    /// The spindle stands still.
    Stopped,
    /// The spindle turns and the tool is at the safe height.
    SpinningDisengaged,
    /// The spindle turns and the tool is in the material.
    SpinningEngaged,
}

/// The kinds of request the machine takes.
#[derive(Clone, Copy, Debug, PartialEq, Eq, Structural)]
pub enum Operation {
    SpindleStart,
    SpindleStop,
    Engage,
    Disengage,
    Rapid,
    Cut,
    Finish,
}

/// One entry of the motion log. Lengths are in grid steps.
#[derive(Clone, Copy, Debug, PartialEq, Eq, Structural)]
pub enum Command {
    /// Absolute positioning.
    Absolute,
    /// Feed rate.
    Feed(i64),
    /// Spindle speed.
    Speed(i64),
    /// Rapid move to a height.
    RapidZ(i64),
    /// Rapid move in the plane.
    RapidXY { x: i64, y: i64 },
    /// Spindle on, clockwise.
    SpindleCw,
    /// Spindle on, counter-clockwise.
    SpindleCcw,
    /// Spindle off.
    SpindleOff,
    /// Linear move to a height.
    LinearZ(i64),
    /// Linear move in the plane.
    LinearXY { x: i64, y: i64 },
    /// Selection of the XY plane for arcs.
    PlaneXY,
    /// Counter-clockwise helix to an end point around a center given relative to the start.
    HelixCcw { x: i64, y: i64, z: i64, i: i64, j: i64, turns: usize },
    /// Counter-clockwise arc to an end point around a center given relative to the start.
    ArcCcw { x: i64, y: i64, i: i64, j: i64 },
    /// End of program.
    End,
}

/// A request made in a state that does not allow it.
#[derive(Clone, Copy, Debug, PartialEq, Eq, Structural)]
pub struct Misuse {
    pub state: GCodeState,
    pub operation: Operation,
}

/// The state a request is allowed in.
///
/// The spindle starts only from standstill and stops only when disengaged; the tool engages
/// only when disengaged and disengages only when engaged; cutting moves need the tool
/// engaged; the program ends only at standstill.
pub open spec fn allows(state: GCodeState, operation: Operation) -> bool {
    match operation {
        Operation::SpindleStart => state == GCodeState::Stopped,
        Operation::SpindleStop => state == GCodeState::SpinningDisengaged,
        Operation::Engage => state == GCodeState::SpinningDisengaged,
        Operation::Disengage => state == GCodeState::SpinningEngaged,
        Operation::Rapid => state != GCodeState::SpinningEngaged,
        Operation::Cut => state == GCodeState::SpinningEngaged,
        Operation::Finish => state == GCodeState::Stopped,
    }
}

/// The state after an allowed request.
pub open spec fn state_after(state: GCodeState, operation: Operation) -> GCodeState {
    match operation {
        Operation::SpindleStart => GCodeState::SpinningDisengaged,
        Operation::SpindleStop => GCodeState::Stopped,
        Operation::Engage => GCodeState::SpinningEngaged,
        Operation::Disengage => GCodeState::SpinningDisengaged,
        Operation::Rapid => state,
        Operation::Cut => state,
        Operation::Finish => state,
    }
}

/// The machine as the contracts see it.
pub struct GeneratorModel {
    pub safe_height: int,
    pub state: GCodeState,
    pub actions: Seq<Command>,
}

impl GeneratorModel {
    /// The machine after an allowed request that logs `logged`.
    pub open spec fn after(self, operation: Operation, logged: Seq<Command>) -> GeneratorModel {
        GeneratorModel {
            state: state_after(self.state, operation),
            actions: self.actions + logged,
            ..self
        }
    }

    /// What a request leads to: the machine after it, or the misuse it is.
    pub open spec fn request(self, operation: Operation, logged: Seq<Command>) -> Result<
        GeneratorModel,
        Misuse,
    > {
        if allows(self.state, operation) {
            Ok(self.after(operation, logged))
        } else {
            Err(Misuse { state: self.state, operation })
        }
    }
}

/// Whether a request's outcome is what the model says: on success the machine has moved on,
/// on misuse it is as it was.
pub open spec fn answers(
    before: GeneratorModel,
    after: GeneratorModel,
    r: Result<(), Misuse>,
    operation: Operation,
    logged: Seq<Command>,
) -> bool {
    match before.request(operation, logged) {
        Ok(m) => r is Ok && after == m,
        Err(e) => r == Err::<(), Misuse>(e) && after == before,
    }
}

/// Whether the state allows the request.
pub fn permits(state: GCodeState, operation: Operation) -> (r: bool)
    ensures
        r == allows(state, operation),
{
    match operation {
        Operation::SpindleStart => state == GCodeState::Stopped,
        Operation::SpindleStop => state == GCodeState::SpinningDisengaged,
        Operation::Engage => state == GCodeState::SpinningDisengaged,
        Operation::Disengage => state == GCodeState::SpinningEngaged,
        Operation::Rapid => state != GCodeState::SpinningEngaged,
        Operation::Cut => state == GCodeState::SpinningEngaged,
        Operation::Finish => state == GCodeState::Stopped,
    }
}

/// The state after a request that the state allows.
pub fn advance(state: GCodeState, operation: Operation) -> (r: GCodeState)
    ensures
        r == state_after(state, operation),
{
    match operation {
        Operation::SpindleStart => GCodeState::SpinningDisengaged,
        Operation::SpindleStop => GCodeState::Stopped,
        Operation::Engage => GCodeState::SpinningEngaged,
        Operation::Disengage => GCodeState::SpinningDisengaged,
        _ => state,
    }
}

/// Every request that cuts is refused unless the tool is engaged, and the program cannot end
/// unless the spindle stands still.
pub proof fn lemma_ordering(state: GCodeState)
    ensures
        allows(state, Operation::Cut) <==> state == GCodeState::SpinningEngaged,
        allows(state, Operation::Finish) <==> state == GCodeState::Stopped,
        allows(state, Operation::Engage) ==> state_after(state, Operation::Engage)
            == GCodeState::SpinningEngaged,
        state == GCodeState::Stopped ==> !allows(state, Operation::Cut) && !allows(
            state_after(state, Operation::SpindleStart),
            Operation::Cut,
        ),
{
}

/// Sequences motion commands and keeps the log of those it accepted.
#[derive(Debug)]
pub struct GCodeGenerator {
    safe_height: i64,
    state: GCodeState,
    actions: Vec<Command>,
}

impl View for GCodeGenerator {
    type V = GeneratorModel;

    closed spec fn view(&self) -> GeneratorModel {
        GeneratorModel {
            safe_height: self.safe_height as int,
            state: self.state,
            actions: self.actions@,
        }
    }
}

impl GCodeGenerator {
    /// A machine at standstill whose log sets absolute positioning, the feed, the spindle
    /// speed, and moves to the safe height.
    pub fn new(feed: i64, rpm: i64, safe_height: i64) -> (r: GCodeGenerator)
        ensures
            r@ == (GeneratorModel {
                safe_height: safe_height as int,
                state: GCodeState::Stopped,
                actions: seq![
                    Command::Absolute,
                    Command::Feed(feed),
                    Command::Speed(rpm),
                    Command::RapidZ(safe_height),
                ],
            }),
    {
        let mut actions: Vec<Command> = Vec::new();
        actions.push(Command::Absolute);
        actions.push(Command::Feed(feed));
        actions.push(Command::Speed(rpm));
        actions.push(Command::RapidZ(safe_height));
        assert(actions@ =~= seq![
            Command::Absolute,
            Command::Feed(feed),
            Command::Speed(rpm),
            Command::RapidZ(safe_height),
        ]);
        GCodeGenerator { safe_height, state: GCodeState::Stopped, actions }
    }

    /// The current state.
    pub fn state(&self) -> (s: GCodeState)
        ensures
            s == self@.state,
    {
        self.state
    }

    /// The commands accepted so far.
    pub fn actions(&self) -> (r: &Vec<Command>)
        ensures
            r@ == self@.actions,
    {
        &self.actions
    }

    /// Takes one request: logs one command and moves on if the state allows it.
    fn take(&mut self, operation: Operation, command: Command) -> (r: Result<(), Misuse>)
        ensures
            answers(old(self)@, final(self)@, r, operation, seq![command]),
    {
        if !permits(self.state, operation) {
            return Err(Misuse { state: self.state, operation });
        }
        self.actions.push(command);
        self.state = advance(self.state, operation);
        assert(self@.actions =~= old(self)@.actions + seq![command]);
        Ok(())
    }

    /// Takes one request that logs the plane selection and then one command.
    fn take_in_plane(&mut self, operation: Operation, command: Command) -> (r: Result<(), Misuse>)
        ensures
            answers(old(self)@, final(self)@, r, operation, seq![Command::PlaneXY, command]),
    {
        if !permits(self.state, operation) {
            return Err(Misuse { state: self.state, operation });
        }
        self.actions.push(Command::PlaneXY);
        self.actions.push(command);
        self.state = advance(self.state, operation);
        assert(self@.actions =~= old(self)@.actions + seq![Command::PlaneXY, command]);
        Ok(())
    }

    /// Starts the spindle clockwise; allowed only at standstill.
    pub fn spindle_start_cwise(&mut self) -> (r: Result<(), Misuse>)
        ensures
            answers(old(self)@, final(self)@, r, Operation::SpindleStart, seq![Command::SpindleCw]),
    {
        self.take(Operation::SpindleStart, Command::SpindleCw)
    }

    /// Starts the spindle counter-clockwise; allowed only at standstill.
    pub fn spindle_start_ccwise(&mut self) -> (r: Result<(), Misuse>)
        ensures
            answers(old(self)@, final(self)@, r, Operation::SpindleStart, seq![Command::SpindleCcw]),
    {
        self.take(Operation::SpindleStart, Command::SpindleCcw)
    }

    /// Stops the spindle; allowed only with the tool disengaged.
    pub fn spindle_stop(&mut self) -> (r: Result<(), Misuse>)
        ensures
            answers(old(self)@, final(self)@, r, Operation::SpindleStop, seq![Command::SpindleOff]),
    {
        self.take(Operation::SpindleStop, Command::SpindleOff)
    }

    /// Plunges to the surface; allowed only with the spindle turning and the tool disengaged.
    pub fn engage(&mut self) -> (r: Result<(), Misuse>)
        ensures
            answers(old(self)@, final(self)@, r, Operation::Engage, seq![Command::LinearZ(0)]),
    {
        self.take(Operation::Engage, Command::LinearZ(0))
    }

    /// Retracts to the safe height; allowed only with the tool engaged.
    pub fn disengage(&mut self) -> (r: Result<(), Misuse>)
        ensures
            answers(
                old(self)@,
                final(self)@,
                r,
                Operation::Disengage,
                seq![Command::LinearZ(old(self)@.safe_height as i64)],
            ),
    {
        let z = self.safe_height;
        self.take(Operation::Disengage, Command::LinearZ(z))
    }

    /// Rapid positioning; refused while the tool is engaged.
    pub fn rapid(&mut self, x: i64, y: i64) -> (r: Result<(), Misuse>)
        ensures
            answers(old(self)@, final(self)@, r, Operation::Rapid, seq![Command::RapidXY { x, y }]),
    {
        self.take(Operation::Rapid, Command::RapidXY { x, y })
    }

    /// Cutting move in the plane; allowed only with the tool engaged.
    pub fn move_xy(&mut self, x: i64, y: i64) -> (r: Result<(), Misuse>)
        ensures
            answers(old(self)@, final(self)@, r, Operation::Cut, seq![Command::LinearXY { x, y }]),
    {
        self.take(Operation::Cut, Command::LinearXY { x, y })
    }

    /// Cutting move to a depth; allowed only with the tool engaged.
    pub fn move_z(&mut self, z: i64) -> (r: Result<(), Misuse>)
        ensures
            answers(old(self)@, final(self)@, r, Operation::Cut, seq![Command::LinearZ(z)]),
    {
        self.take(Operation::Cut, Command::LinearZ(z))
    }

    /// Counter-clockwise helix; allowed only with the tool engaged.
    pub fn helix_ccwise(
        &mut self,
        end_x: i64,
        end_y: i64,
        end_z: i64,
        offset_x: i64,
        offset_y: i64,
        turns: usize,
    ) -> (r: Result<(), Misuse>)
        ensures
            answers(
                old(self)@,
                final(self)@,
                r,
                Operation::Cut,
                seq![
                    Command::PlaneXY,
                    Command::HelixCcw {
                        x: end_x,
                        y: end_y,
                        z: end_z,
                        i: offset_x,
                        j: offset_y,
                        turns,
                    },
                ],
            ),
    {
        self.take_in_plane(
            Operation::Cut,
            Command::HelixCcw { x: end_x, y: end_y, z: end_z, i: offset_x, j: offset_y, turns },
        )
    }

    /// Counter-clockwise arc; allowed only with the tool engaged.
    pub fn arc_ccwise(&mut self, end_x: i64, end_y: i64, offset_x: i64, offset_y: i64) -> (r: Result<
        (),
        Misuse,
    >)
        ensures
            answers(
                old(self)@,
                final(self)@,
                r,
                Operation::Cut,
                seq![
                    Command::PlaneXY,
                    Command::ArcCcw { x: end_x, y: end_y, i: offset_x, j: offset_y },
                ],
            ),
    {
        self.take_in_plane(
            Operation::Cut,
            Command::ArcCcw { x: end_x, y: end_y, i: offset_x, j: offset_y },
        )
    }

    /// Ends the program and hands out the log; allowed only at standstill.
    pub fn into_commands(self) -> (r: Result<Vec<Command>, Misuse>)
        ensures
            match r {
                Ok(log) => self@.state == GCodeState::Stopped && log@ == self@.actions.push(
                    Command::End,
                ),
                Err(e) => self@.state != GCodeState::Stopped && e == (Misuse {
                    state: self@.state,
                    operation: Operation::Finish,
                }),
            },
    {
        if !permits(self.state, Operation::Finish) {
            return Err(Misuse { state: self.state, operation: Operation::Finish });
        }
        let mut log = self.actions;
        log.push(Command::End);
        Ok(log)
    }

    /// Ends the program and writes the log out as G-code text, one command a line; allowed
    /// only at standstill.
    pub fn into_string(self) -> (r: Result<String, Misuse>)
        ensures
            match r {
                Ok(text) => self@.state == GCodeState::Stopped && text@ == crate::io::text::text_of(
                    self@.actions.push(Command::End),
                ),
                Err(e) => self@.state != GCodeState::Stopped && e == (Misuse {
                    state: self@.state,
                    operation: Operation::Finish,
                }),
            },
    {
        match self.into_commands() {
            Ok(log) => Ok(crate::io::text::render(&log)),
            Err(e) => Err(e),
        }
    }
}

} // verus!
