//! The signalling discipline of one dual-rail signal.
//!
//! A signal rests at `Null`. It may be driven from `Null` to a data value
//! and from a data value back to `Null`. It is never driven from one data
//! value straight to another: such a request is carried out as a return to
//! `Null` followed by a fresh drive.

use vstd::prelude::*;

use crate::sel4::{CPtr, Error, Word};

verus! {

/// The state of one dual-rail signal.
#[derive(Debug, Clone, Copy, PartialEq, Eq, Structural)]
pub enum NCLState {
    /// Neither rail is asserted.
    Null,
    /// The signal carries a value: zero is the logical 0, anything else the
    /// logical 1.
    Data(Word),
    /// The signal is on its way back to `Null`.
    Transitioning,
}

/// The states a signal passes through, in order, when it is in `current`
/// and `target` is asked for. Nothing is passed through when the request
/// changes nothing.
pub open spec fn path_between(current: NCLState, target: NCLState) -> Seq<NCLState> {
    match (current, target) {
        (NCLState::Null, NCLState::Data(_)) => seq![target],
        (NCLState::Data(_), NCLState::Data(_)) => seq![
            NCLState::Transitioning,
            NCLState::Null,
            target,
        ],
        (NCLState::Data(_), NCLState::Null) => seq![NCLState::Null],
        _ => Seq::<NCLState>::empty(),
    }
}

/// The state a signal is in after `target` was asked for in `current`.
pub open spec fn settled(current: NCLState, target: NCLState) -> NCLState {
    if path_between(current, target).len() == 0 {
        current
    } else {
        path_between(current, target).last()
    }
}

/// No two neighbours of `history` are both data states.
pub open spec fn disciplined(history: Seq<NCLState>) -> bool {
    forall|k: int|
        0 <= k && k + 1 < history.len() ==> !((#[trigger] history[k]) is Data && history[k
            + 1] is Data)
}

/// The levels of the two rails in `state`, data rail first.
pub open spec fn rails_of(state: NCLState) -> (bool, bool) {
    match state {
        NCLState::Data(w) => if w == 0 {
            (true, false)
        } else {
            (false, true)
        },
        _ => (false, false),
    }
}

/// A history that keeps the discipline still keeps it after any request is
/// carried out at its end.
pub proof fn lemma_request_keeps_discipline(history: Seq<NCLState>, target: NCLState)
    requires
        history.len() > 0,
        disciplined(history),
    ensures
        disciplined(history + path_between(history.last(), target)),
        (history + path_between(history.last(), target)).last() == settled(
            history.last(),
            target,
        ),
{
    let path = path_between(history.last(), target);
    let longer = history + path;
    assert forall|k: int| 0 <= k && k + 1 < longer.len() implies !((#[trigger] longer[k]) is Data
        && longer[k + 1] is Data) by {
        if k + 1 < history.len() {
            assert(longer[k] == history[k] && longer[k + 1] == history[k + 1]);
        } else if k + 1 == history.len() {
            assert(longer[k] == history.last());
            assert(longer[k + 1] == path[0]);
        } else {
            assert(longer[k] == path[k - history.len()]);
            assert(longer[k + 1] == path[k + 1 - history.len()]);
        }
    }
}

/// The two rails are never asserted together.
pub proof fn lemma_rails_exclusive(state: NCLState)
    ensures
        !(rails_of(state).0 && rails_of(state).1),
        state is Null ==> rails_of(state) == (false, false),
{
}

impl NCLState {
    /// The states to pass through, in order, to carry out a request for
    /// `target` in this state.
    pub fn path_to(self, target: NCLState) -> (path: Vec<NCLState>)
        ensures
            path@ == path_between(self, target),
    {
        let mut path: Vec<NCLState> = Vec::new();
        match (self, target) {
            (NCLState::Null, NCLState::Data(_)) => {
                path.push(target);
            },
            (NCLState::Data(_), NCLState::Data(_)) => {
                path.push(NCLState::Transitioning);
                path.push(NCLState::Null);
                path.push(target);
            },
            (NCLState::Data(_), NCLState::Null) => {
                path.push(NCLState::Null);
            },
            _ => {},
        }
        assert(path@ =~= path_between(self, target));
        path
    }

    /// The levels of the two rails in this state, data rail first.
    pub fn rails(self) -> (levels: (bool, bool))
        ensures
            levels == rails_of(self),
            !(levels.0 && levels.1),
    {
        match self {
            NCLState::Data(w) => if w == 0 {
                (true, false)
            } else {
                (false, true)
            },
            _ => (false, false),
        }
    }
}

/// One signal as the runtime drives it: the capability it is reached
/// through, the state it is in, whether it was ever driven, and every state
/// it has been in.
pub struct HardwareMapping {
    gpio_cap: CPtr,
    ncl_state: NCLState,
    driven: bool,
    history: Ghost<Seq<NCLState>>,
}

impl HardwareMapping {
    /// The capability the signal is reached through.
    pub closed spec fn capability(&self) -> CPtr {
        self.gpio_cap
    }

    /// The state the signal is in.
    pub closed spec fn current(&self) -> NCLState {
        self.ncl_state
    }

    /// Every state the signal has been in, oldest first, the current one
    /// last.
    pub closed spec fn observed(&self) -> Seq<NCLState> {
        self.history@
    }

    /// Whether a request has ever changed the state of the signal.
    pub closed spec fn ever_driven(&self) -> bool {
        self.driven
    }

    /// The history ends in the current state and keeps the discipline, and
    /// the signal was driven if it has been in more than one state.
    pub open spec fn wf(&self) -> bool {
        &&& self.observed().len() > 0
        &&& self.observed().last() == self.current()
        &&& disciplined(self.observed())
        &&& self.ever_driven() == (self.observed().len() > 1)
    }

    /// A signal in `initial_state`, which is all it has been in so far.
    pub fn new(gpio_cap: CPtr, initial_state: NCLState) -> (mapping: HardwareMapping)
        ensures
            mapping.wf(),
            mapping.capability() == gpio_cap,
            mapping.current() == initial_state,
            mapping.observed() == seq![initial_state],
            !mapping.ever_driven(),
    {
        let ghost start = Seq::<NCLState>::empty().push(initial_state);
        assert(start =~= seq![initial_state]);
        HardwareMapping {
            gpio_cap,
            ncl_state: initial_state,
            driven: false,
            history: Ghost(start),
        }
    }

    pub fn gpio_cap(&self) -> (cap: CPtr)
        ensures
            cap == self.capability(),
    {
        self.gpio_cap
    }

    pub fn state(&self) -> (state: NCLState)
        ensures
            state == self.current(),
    {
        self.ncl_state
    }

    /// Whether a request has ever changed the state of the signal.
    pub fn was_driven(&self) -> (driven: bool)
        ensures
            driven == self.ever_driven(),
    {
        self.driven
    }

    /// Carries out a request for `new_state`. The signal passes through the
    /// states of `path_between`, which never puts two data states next to
    /// each other, and ends in `settled`.
    pub fn set_state(&mut self, new_state: NCLState) -> (r: Result<(), Error>)
        requires
            old(self).wf(),
        ensures
            r is Ok,
            final(self).wf(),
            final(self).capability() == old(self).capability(),
            final(self).current() == settled(old(self).current(), new_state),
            final(self).observed() == old(self).observed() + path_between(
                old(self).current(),
                new_state,
            ),
    {
        proof {
            lemma_request_keeps_discipline(self.history@, new_state);
        }
        let ghost path = path_between(self.ncl_state, new_state);
        match (self.ncl_state, new_state) {
            (NCLState::Data(_), NCLState::Data(_)) => {
                self.ncl_state = NCLState::Transitioning;
                self.ncl_state = NCLState::Null;
                self.ncl_state = new_state;
                self.driven = true;
            },
            (NCLState::Null, NCLState::Data(_)) => {
                self.ncl_state = new_state;
                self.driven = true;
            },
            (NCLState::Data(_), NCLState::Null) => {
                self.ncl_state = NCLState::Null;
                self.driven = true;
            },
            _ => {},
        }
        self.history = Ghost(self.history@ + path);
        assert(path.len() == 0 ==> self.history@ =~= old(self).history@);
        Ok(())
    }
}

} // verus!
