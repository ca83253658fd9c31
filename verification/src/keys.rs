//! The viewer's keyboard: what a chunk of typed bytes becomes. The detach
//! byte arms a detach, which the next byte confirms (the byte still goes to
//! the child) unless it is the detach byte again, which then goes to the
//! child as itself; ^Z suspends the viewer unless it is passed on; all else
//! is input for the child, sent in runs between those events.
use vstd::prelude::*;

verus! {

/// What the viewer does for a chunk of keyboard bytes, in order.
#[derive(Debug)]
pub enum KeyStep {
    Send(Vec<u8>),
    Suspend,
    Arm,
}

pub enum KeyStepView {
    Send(Seq<u8>),
    Suspend,
    Arm,
}

impl View for KeyStep {
    type V = KeyStepView;

    open spec fn view(&self) -> KeyStepView {
        match self {
            KeyStep::Send(bytes) => KeyStepView::Send(bytes@),
            KeyStep::Suspend => KeyStepView::Suspend,
            KeyStep::Arm => KeyStepView::Arm,
        }
    }
}

pub open spec fn key_views(steps: Seq<KeyStep>) -> Seq<KeyStepView> {
    steps.map_values(|s: KeyStep| s@)
}

/// The state between bytes: the steps so far, the input not yet sent,
/// whether a detach is armed, and whether the viewer detached.
pub struct KeyState {
    pub steps: Seq<KeyStepView>,
    pub pending: Seq<u8>,
    pub armed: bool,
    pub ended: bool,
}

/// Sends what is pending, if anything is.
pub open spec fn flushed(pending: Seq<u8>) -> Seq<KeyStepView> {
    if pending.len() == 0 {
        Seq::empty()
    } else {
        seq![KeyStepView::Send(pending)]
    }
}

/// Whether `byte` interrupts the input: the detach byte, or ^Z when it is
/// not passed on.
pub open spec fn interrupts(byte: u8, detach: Option<u8>, pass_suspend: bool) -> bool {
    detach == Some(byte) || (byte == 0x1a && !pass_suspend)
}

pub open spec fn key_step(st: KeyState, byte: u8, detach: Option<u8>, pass_suspend: bool) -> KeyState {
    if st.ended {
        st
    } else if st.armed {
        KeyState { pending: st.pending.push(byte), armed: false, ended: detach != Some(byte), ..st }
    } else if interrupts(byte, detach, pass_suspend) {
        let armed = detach == Some(byte);
        KeyState {
            steps: st.steps + flushed(st.pending) + seq![
                if armed {
                    KeyStepView::Arm
                } else {
                    KeyStepView::Suspend
                },
            ],
            pending: Seq::empty(),
            armed,
            ended: false,
        }
    } else {
        KeyState { pending: st.pending.push(byte), ..st }
    }
}

pub open spec fn key_fold(st: KeyState, bytes: Seq<u8>, detach: Option<u8>, pass_suspend: bool) -> KeyState
    decreases bytes.len(),
{
    if bytes.len() == 0 {
        st
    } else {
        key_step(key_fold(st, bytes.drop_last(), detach, pass_suspend), bytes.last(), detach, pass_suspend)
    }
}

/// The steps for `bytes` typed while a detach was (`armed`) or was not
/// armed: the steps with the remaining input sent last, whether a detach is
/// armed after them, and whether the viewer detached.
pub open spec fn keys_outcome(bytes: Seq<u8>, detach: Option<u8>, pass_suspend: bool, armed: bool) -> (
    Seq<KeyStepView>,
    bool,
    bool,
) {
    let st = key_fold(
        KeyState { steps: Seq::empty(), pending: Seq::empty(), armed, ended: false },
        bytes,
        detach,
        pass_suspend,
    );
    (st.steps + flushed(st.pending), st.armed, st.ended)
}

/// Works out what a chunk of keyboard bytes does. Once the viewer
/// detached, the rest of the chunk is dropped.
pub fn input_keys(bytes: &[u8], detach: Option<u8>, pass_suspend: bool, armed: bool) -> (r: (
    Vec<KeyStep>,
    bool,
    bool,
))
    ensures
        (key_views(r.0@), r.1, r.2) == keys_outcome(bytes@, detach, pass_suspend, armed),
{
    let mut steps: Vec<KeyStep> = Vec::new();
    let mut pending: Vec<u8> = Vec::new();
    let mut armed = armed;
    let mut ended = false;
    let ghost start = KeyState { steps: Seq::empty(), pending: Seq::empty(), armed, ended: false };
    let mut i: usize = 0;
    proof {
        assert(key_views(steps@) =~= Seq::<KeyStepView>::empty());
        assert(bytes@.take(0) =~= Seq::<u8>::empty());
    }
    while i < bytes.len()
        invariant
            i <= bytes@.len(),
            key_fold(start, bytes@.take(i as int), detach, pass_suspend) == (KeyState {
                steps: key_views(steps@),
                pending: pending@,
                armed,
                ended,
            }),
        decreases bytes.len() - i,
    {
        let byte = bytes[i];
        let ghost before = KeyState { steps: key_views(steps@), pending: pending@, armed, ended };
        proof {
            assert(bytes@.take(i + 1).drop_last() =~= bytes@.take(i as int));
        }
        if ended {
        } else if armed {
            pending.push(byte);
            armed = false;
            ended = match detach {
                Some(d) => d != byte,
                None => true,
            };
        } else {
            let is_detach = match detach {
                Some(d) => d == byte,
                None => false,
            };
            if is_detach || (byte == 0x1a && !pass_suspend) {
                let ghost prior = steps@;
                if pending.len() > 0 {
                    let sent = pending;
                    pending = Vec::new();
                    steps.push(KeyStep::Send(sent));
                } else {
                    proof {
                        assert(pending@ =~= Seq::<u8>::empty());
                    }
                }
                steps.push(if is_detach { KeyStep::Arm } else { KeyStep::Suspend });
                armed = is_detach;
                proof {
                    assert(key_views(steps@) =~= before.steps + flushed(before.pending) + seq![
                        if is_detach {
                            KeyStepView::Arm
                        } else {
                            KeyStepView::Suspend
                        },
                    ]);
                }
            } else {
                pending.push(byte);
            }
        }
        i = i + 1;
        proof {
            assert(key_step(before, byte, detach, pass_suspend) == (KeyState {
                steps: key_views(steps@),
                pending: pending@,
                armed,
                ended,
            }));
        }
    }
    proof {
        assert(bytes@.take(bytes@.len() as int) =~= bytes@);
    }
    let ghost last = steps@;
    if pending.len() > 0 {
        steps.push(KeyStep::Send(pending));
    }
    proof {
        assert(key_views(steps@) =~= key_views(last) + flushed(
            key_fold(start, bytes@, detach, pass_suspend).pending,
        ));
    }
    (steps, armed, ended)
}

/// Typing that holds neither the detach byte nor a ^Z that suspends goes to
/// the child whole and in order, as one run.
pub proof fn lemma_plain_typing_passes_through(bytes: Seq<u8>, detach: Option<u8>, pass_suspend: bool)
    requires
        forall|i: int| 0 <= i < bytes.len() ==> !interrupts(#[trigger] bytes[i], detach, pass_suspend),
    ensures
        keys_outcome(bytes, detach, pass_suspend, false) == (flushed(bytes), false, false),
{
    lemma_plain_fold(bytes, detach, pass_suspend);
    assert(Seq::<KeyStepView>::empty() + flushed(bytes) =~= flushed(bytes));
}

proof fn lemma_plain_fold(bytes: Seq<u8>, detach: Option<u8>, pass_suspend: bool)
    requires
        forall|i: int| 0 <= i < bytes.len() ==> !interrupts(#[trigger] bytes[i], detach, pass_suspend),
    ensures
        key_fold(
            KeyState { steps: Seq::empty(), pending: Seq::empty(), armed: false, ended: false },
            bytes,
            detach,
            pass_suspend,
        ) == (KeyState { steps: Seq::empty(), pending: bytes, armed: false, ended: false }),
    decreases bytes.len(),
{
    if bytes.len() == 0 {
        assert(bytes =~= Seq::<u8>::empty());
    } else {
        let init = bytes.drop_last();
        assert forall|i: int| 0 <= i < init.len() implies !interrupts(#[trigger] init[i], detach, pass_suspend) by {
            assert(init[i] == bytes[i]);
        }
        lemma_plain_fold(init, detach, pass_suspend);
        assert(!interrupts(bytes[bytes.len() - 1], detach, pass_suspend));
        assert(init.push(bytes.last()) =~= bytes);
    }
}

} // verus!
